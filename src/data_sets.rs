//! Synthetic input sequences for benchmarking the counters.
use vstd::prelude::*;

verus! {

/// Length of each generated sequence.
pub const SIZE: u64 = 500000;

/// `SIZE` values cycling through `0..256`.
pub fn very_small_numbers() -> (r: Vec<u64>)
    ensures
        r@.len() == SIZE,
        forall|i: int| 0 <= i < SIZE ==> #[trigger] r@[i] == i % 256,
{
    let mut vec: Vec<u64> = Vec::with_capacity(SIZE as usize);
    let mut i: u64 = 0;
    while i < SIZE
        invariant
            i <= SIZE,
            vec@.len() == i,
            forall|k: int| 0 <= k < i ==> #[trigger] vec@[k] == k % 256,
        decreases SIZE - i,
    {
        vec.push(i % 256);
        i = i + 1;
    }
    vec
}

/// The values `SIZE, SIZE - 1, ..., 1`.
pub fn small_unique_numbers() -> (r: Vec<u64>)
    ensures
        r@.len() == SIZE,
        forall|i: int| 0 <= i < SIZE ==> #[trigger] r@[i] == SIZE - i,
{
    let mut vec: Vec<u64> = Vec::with_capacity(SIZE as usize);
    let mut i: u64 = 0;
    while i < SIZE
        invariant
            i <= SIZE,
            vec@.len() == i,
            forall|k: int| 0 <= k < i ==> #[trigger] vec@[k] == SIZE - k,
        decreases SIZE - i,
    {
        vec.push(SIZE - i);
        i = i + 1;
    }
    vec
}

/// Each of `u64::MAX - 1` down to `u64::MAX - (SIZE / 2 - 500)` twice in a
/// row, then `500, ..., 1` twice.
pub fn very_big_numbers() -> (r: Vec<u64>)
    ensures
        r@.len() == SIZE,
        forall|i: int|
            0 <= i < SIZE - 1000 ==> #[trigger] r@[i] == u64::MAX - (i / 2 + 1),
        forall|k: int|
            0 <= k < 500 ==> #[trigger] r@[SIZE - 1000 + k] == 500 - k && r@[SIZE - 500 + k] == 500 - k,
{
    let mut vec: Vec<u64> = Vec::with_capacity(SIZE as usize);
    let big: u64 = SIZE / 2 - 500;
    let mut i: u64 = 1;
    while i <= big
        invariant
            big == SIZE / 2 - 500,
            1 <= i <= big + 1,
            vec@.len() == 2 * (i - 1),
            forall|k: int| 0 <= k < vec@.len() ==> #[trigger] vec@[k] == u64::MAX - (k / 2 + 1),
        decreases big + 1 - i,
    {
        vec.push(u64::MAX - i);
        vec.push(u64::MAX - i);
        i = i + 1;
    }
    let mut round: u64 = 0;
    while round < 2
        invariant
            round <= 2,
            vec@.len() == SIZE - 1000 + 500 * round,
            forall|k: int| 0 <= k < SIZE - 1000 ==> #[trigger] vec@[k] == u64::MAX - (k / 2 + 1),
            forall|k: int|
                0 <= k < 500 * round ==> #[trigger] vec@[SIZE - 1000 + k] == 500 - k % 500,
        decreases 2 - round,
    {
        let mut v: u64 = 500;
        while v >= 1
            invariant
                v <= 500,
                round < 2,
                vec@.len() == SIZE - 1000 + 500 * round + (500 - v),
                forall|k: int| 0 <= k < SIZE - 1000 ==> #[trigger] vec@[k] == u64::MAX - (k / 2 + 1),
                forall|k: int|
                    0 <= k < 500 * round + (500 - v) ==> #[trigger] vec@[SIZE - 1000 + k] == 500 - k
                        % 500,
            decreases v,
        {
            vec.push(v);
            v = v - 1;
        }
        round = round + 1;
    }
    proof {
        assert forall|k: int| 0 <= k < 500 implies #[trigger] vec@[SIZE - 1000 + k] == 500 - k
            && vec@[SIZE - 500 + k] == 500 - k by {
            assert(vec@[SIZE - 1000 + (500 + k)] == 500 - (500 + k) % 500);
        }
    }
    vec
}

} // verus!
