//! Binary search for a message by an 8-byte big-endian field in its body.

use core::cmp::Ordering;
use vstd::prelude::*;

use crate::codec::read_u64_be;
use crate::codec::u64_be_at;
use crate::offsets::MsgOffsets;
use crate::types::SeqNum;
use crate::types::Target;

verus! {

/// The field value a probe of sequence number `s` sees: entry `s` of the
/// index is the end offset of frame `s`, hence the start of frame `s + 1`,
/// so the probe reads the field embedded in the body of frame `s + 1`.
pub open spec fn probe_field(log: Seq<u8>, entries: Seq<int>, field: int, s: int) -> int {
    u64_be_at(log, entries[s] + 8 + field)
}

/// Every probe the search can make stays inside the log: each entry but the
/// last leads to a frame whose bytes reach past the probed field.
pub open spec fn probes_in_bounds(log: Seq<u8>, entries: Seq<int>, field: int) -> bool {
    forall|s: int|
        0 <= s < entries.len() - 1 ==> 0 <= #[trigger] entries[s] && entries[s] + 16 + field
            <= log.len()
}

/// The probed field values never decrease with the sequence number: the
/// precondition under which the binary search narrows correctly.
pub open spec fn fields_nondecreasing(log: Seq<u8>, entries: Seq<int>, field: int) -> bool {
    forall|s1: int, s2: int|
        0 <= s1 <= s2 < entries.len() - 1 ==> #[trigger] probe_field(log, entries, field, s1)
            <= #[trigger] probe_field(log, entries, field, s2)
}

/// Look up the probe offset for `msg`, read the 8-byte big-endian field
/// `target.field` bytes into the body it leads to, and compare that value to
/// the target value.
fn check_msg(log: &[u8], idx: &MsgOffsets, msg: SeqNum, target: Target) -> (r: Ordering)
    requires
        (msg.0 as int) < idx@.len() - 1,
        probes_in_bounds(log@, idx@, target.field as int),
    ensures
        r == Ordering::Less <==> probe_field(log@, idx@, target.field as int, msg.0 as int)
            < target.value,
        r == Ordering::Equal <==> probe_field(log@, idx@, target.field as int, msg.0 as int)
            == target.value,
        r == Ordering::Greater <==> probe_field(log@, idx@, target.field as int, msg.0 as int)
            > target.value,
{
    let loglen: usize = log.len();
    proof {
        assert(0 <= idx@[msg.0 as int] && idx@[msg.0 as int] + 16 + target.field <= log@.len());
    }
    if let Some(offset) = idx.lookup(msg) {
        let pos = offset.0 + 8 + target.field;
        let x = read_u64_be(log, pos as usize);
        if x < target.value {
            Ordering::Less
        } else if x == target.value {
            Ordering::Equal
        } else {
            Ordering::Greater
        }
    } else {
        proof {
            assert(false);
        }
        Ordering::Equal
    }
}

/// Find, by binary search over the index, where the probed field crosses the
/// target value. When the topmost probe already reads less than the target,
/// the target is beyond everything indexed and the result is absent; when it
/// reads the target exactly, the last sequence number is returned outright.
/// Otherwise the result is the sequence number the narrowing converges to:
/// its probe reads at least the target, the probe below it reads at most the
/// target, and an exact match is returned whenever the narrowed range holds
/// one. With strictly increasing fields and a present target this is the
/// probe that reads the target; with ties, or a target that falls between
/// present values, it is only that tightest upper bound, and the caller must
/// re-verify equality if it needs certainty.
pub fn binary_search(log: &[u8], idx: &MsgOffsets, target: Target) -> (r: Option<SeqNum>)
    requires
        idx@.len() >= 2,
        probes_in_bounds(log@, idx@, target.field as int),
        fields_nondecreasing(log@, idx@, target.field as int),
    ensures
        ({
            let n = idx@.len();
            let f = target.field as int;
            let v = target.value as int;
            let gtop = probe_field(log@, idx@, f, n - 2);
            &&& (r is None <==> gtop < v)
            &&& (gtop == v ==> r == Some(SeqNum((n - 1) as u64)))
            &&& (gtop > v ==> (r matches Some(m) && {
                let h = m.0 as int;
                &&& 1 <= h <= n - 1
                &&& (n >= 3 ==> h <= n - 2)
                &&& (h <= n - 2 ==> probe_field(log@, idx@, f, h) >= v)
                &&& (2 <= h ==> probe_field(log@, idx@, f, h - 1) <= v)
                &&& ((h <= n - 2 && exists|s: int|
                    1 <= s <= n - 2 && #[trigger] probe_field(log@, idx@, f, s) == v)
                    ==> probe_field(log@, idx@, f, h) == v)
            }))
        }),
{
    let ghost n = idx@.len();
    let ghost f = target.field as int;
    let ghost v = target.value as int;
    let last = match idx.last() {
        Some(s) => s,
        None => {
            proof {
                assert(false);
            }
            SeqNum(0)
        },
    };

    // First check whether the target is in the file yet. If not, return None.
    let probe = SeqNum(last.0 - 1);
    match check_msg(log, idx, probe, target) {
        Ordering::Less => {
            return None;
        },
        Ordering::Equal => {
            return Some(last);
        },
        Ordering::Greater => {},
    }

    // It is somewhere in the file: binary search for it.
    let mut low: u64 = 0;
    let mut high: u64 = last.0;
    while high - low > 1
        invariant
            n == idx@.len(),
            f == target.field as int,
            v == target.value as int,
            n >= 2,
            probes_in_bounds(log@, idx@, f),
            fields_nondecreasing(log@, idx@, f),
            low <= high <= n - 1,
            probe_field(log@, idx@, f, n - 2) > v,
            low < high || (1 <= high <= n - 2 && probe_field(log@, idx@, f, high as int) == v),
            (1 <= low && low < high) ==> probe_field(log@, idx@, f, low as int) < v,
            (high <= n - 2 && low < high) ==> probe_field(log@, idx@, f, high as int) > v,
        decreases high - low,
    {
        let mid = low + (high - low) / 2;
        match check_msg(log, idx, SeqNum(mid), target) {
            Ordering::Less => {
                low = mid;
            },
            Ordering::Equal => {
                low = mid;
                high = mid;
            },
            Ordering::Greater => {
                high = mid;
            },
        }
    }
    proof {
        let h = high as int;
        if low < high {
            if n >= 3 && h == n - 1 {
                assert(probe_field(log@, idx@, f, low as int) < v);
                assert(false);
            }
            if h <= n - 2 && exists|s: int|
                1 <= s <= n - 2 && #[trigger] probe_field(log@, idx@, f, s) == v {
                let s = choose|s: int|
                    1 <= s <= n - 2 && #[trigger] probe_field(log@, idx@, f, s) == v;
                if s <= low as int {
                    assert(probe_field(log@, idx@, f, s) <= probe_field(log@, idx@, f, low as int));
                } else {
                    assert(h <= s);
                    assert(probe_field(log@, idx@, f, h) <= probe_field(log@, idx@, f, s));
                }
                assert(false);
            }
        } else {
            assert(probe_field(log@, idx@, f, h - 1) <= probe_field(log@, idx@, f, h));
        }
    }
    Some(SeqNum(high))
}

} // verus!
