//! Fresh seed material from the operating system, with a clock-based
//! fallback for systems where that source fails.
use crate::bytes::{le_bytes, u64_to_le_bytes};
use std::collections::hash_map::DefaultHasher;
use std::hash::{Hash, Hasher};
use std::time::Instant;
use vstd::prelude::*;
use vstd::std_specs::hash::DefaultHasherAdditionalSpecFns;

verus! {

/// The error of the operating system's random source.
#[verifier::external_type_specification]
#[verifier::external_body]
pub struct ExEntropyError(getrandom::Error);

/// A reading of the monotonic clock.
#[verifier::external_type_specification]
#[verifier::external_body]
pub struct ExInstant(Instant);

/// `getrandom::getrandom` fills the slice with random bytes from the
/// operating system or reports a failure. Nothing is claimed of the bytes:
/// only that the slice keeps its length.
pub assume_specification[ getrandom::getrandom ](dest: &mut [u8]) -> (outcome: Result<
    (),
    getrandom::Error,
>)
    ensures
        final(dest)@.len() == old(dest)@.len(),
;

/// `Instant::now` reads the monotonic clock. Nothing is claimed of the
/// reading.
pub assume_specification[ Instant::now ]() -> Instant;

/// Feeds a clock reading to the hasher through `Hash::hash`. Nothing is
/// claimed of the hasher afterwards.
#[verifier::external_body]
fn hash_instant(now: &Instant, hasher: &mut DefaultHasher) {
    now.hash(hasher)
}

/// The bytes that the fallback makes of a hasher that has been fed
/// `hashed`: for every eight bytes, and for what is left at the end, the
/// hasher is fed the number of bytes still missing and gives the next
/// bytes, least significant first.
pub open spec fn spec_fallback(hashed: Seq<Seq<u8>>, len: nat) -> Seq<u8>
    decreases len,
{
    if len == 0 {
        Seq::empty()
    } else {
        let fed = hashed.push(le_bytes(len, 8));
        let fill = if len < 8 {
            len
        } else {
            8
        };
        le_bytes(DefaultHasher::spec_finish(fed) as nat, 8).take(fill as int) + spec_fallback(
            fed,
            (len - fill) as nat,
        )
    }
}

/// Whether `bytes` are what the fallback makes of some reading of the
/// clock.
pub open spec fn is_fallback(bytes: Seq<u8>) -> bool {
    exists|hashed: Seq<Seq<u8>>| bytes == #[trigger] spec_fallback(hashed, bytes.len())
}

/// Fills `buffer` from a hash of the clock, eight bytes at a time. This is
/// the last resort when the operating system has no entropy to give: it is
/// not meant to be secure, only to provide something.
pub fn fallback_entropy(buffer: &mut [u8])
    ensures
        final(buffer)@.len() == old(buffer)@.len(),
        is_fallback(final(buffer)@),
{
    let mut hasher = DefaultHasher::new();
    let now = Instant::now();
    hash_instant(&now, &mut hasher);
    let total = buffer.len();
    let mut written: usize = 0;
    let ghost hashed = hasher@;
    proof {
        assert(buffer@.take(0) + spec_fallback(hashed, total as nat) =~= spec_fallback(
            hashed,
            total as nat,
        ));
    }
    while written < total
        invariant
            written <= total,
            total == buffer@.len(),
            total == old(buffer)@.len(),
            buffer@.take(written as int) + spec_fallback(hasher@, (total - written) as nat)
                == spec_fallback(hashed, total as nat),
        decreases total - written,
    {
        let left = total - written;
        let ghost earlier = buffer@;
        let ghost before = hasher@;
        let tag = u64_to_le_bytes(left as u64);
        hasher.write(tag.as_slice());
        let output = u64_to_le_bytes(hasher.finish());
        let fill = if left < 8 {
            left
        } else {
            8
        };
        let mut i: usize = 0;
        while i < fill
            invariant
                i <= fill,
                fill <= 8,
                written + fill <= total,
                total == buffer@.len(),
                total == earlier.len(),
                forall|k: int| 0 <= k < written ==> buffer@[k] == earlier[k],
                forall|k: int| written <= k < written + i ==> buffer@[k] == output@[k - written],
            decreases fill - i,
        {
            buffer[written + i] = output[i];
            i += 1;
        }
        proof {
            let chunk = output@.take(fill as int);
            assert(spec_fallback(before, left as nat) == chunk + spec_fallback(
                hasher@,
                (left - fill) as nat,
            ));
            assert(buffer@.take(written + fill) =~= earlier.take(written as int) + chunk);
            assert(earlier.take(written as int) + (chunk + spec_fallback(
                hasher@,
                (left - fill) as nat,
            )) =~= (earlier.take(written as int) + chunk) + spec_fallback(
                hasher@,
                (left - fill) as nat,
            ));
        }
        written += fill;
    }
    proof {
        assert(buffer@.take(total as int) =~= buffer@);
        assert(buffer@ + spec_fallback(hasher@, 0) =~= buffer@);
    }
}

/// Returns `SIZE` bytes of fresh entropy: what `getrandom::getrandom` makes
/// of a buffer of zeros where it succeeds, else what the clock-based
/// fallback gives.
pub fn generate_entropy<const SIZE: usize>() -> (bytes: [u8; SIZE])
    ensures
        exists|buffer: &mut [u8], outcome: Result<(), getrandom::Error>|
            {
                &&& buffer@ == Seq::new(SIZE as nat, |i: int| 0u8)
                &&& #[trigger] call_ensures(getrandom::getrandom, (buffer,), outcome)
                &&& outcome.is_ok() ==> bytes@ == final(buffer)@
                &&& outcome.is_err() ==> is_fallback(bytes@)
            },
{
    let zeros = [0u8; SIZE];
    proof {
        assert(zeros == vstd::array::spec_array_fill_for_copy_type::<u8, SIZE>(0u8));
        assert(zeros@.len() == SIZE);
        assert forall|i: int| 0 <= i < SIZE implies zeros@[i] == 0u8 by {}
        assert(zeros@ =~= Seq::new(SIZE as nat, |i: int| 0u8));
    }
    let mut bytes = zeros;
    match getrandom::getrandom(&mut bytes) {
        Ok(_) => {},
        Err(_) => {
            fallback_entropy(&mut bytes);
        },
    }
    bytes
}

} // verus!
