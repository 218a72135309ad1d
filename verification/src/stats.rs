//! The integer part of box statistics: choosing the most frequent key.

use vstd::prelude::*;
use std::collections::HashMap;

verus! {

/// Number of positions before `i` that hold `key`.
pub open spec fn count_before(keys: Seq<(i32, i32)>, i: nat, key: (i32, i32)) -> nat
    decreases i,
{
    if i == 0 {
        0
    } else {
        count_before(keys, (i - 1) as nat, key) + if keys[i - 1] == key {
            1nat
        } else {
            0nat
        }
    }
}

/// How often the key at position `j` has occurred up to and including `j`.
pub open spec fn running_count(keys: Seq<(i32, i32)>, j: int) -> nat {
    count_before(keys, (j + 1) as nat, keys[j])
}

/// `r` is the first position at which a key reaches the highest running
/// count: the position of the most frequent key's deciding occurrence,
/// ties going to the key that got there first.
pub open spec fn is_mode_position(keys: Seq<(i32, i32)>, r: int) -> bool {
    &&& 0 <= r < keys.len()
    &&& forall|j: int| 0 <= j < keys.len() ==> running_count(keys, j) <= running_count(keys, r)
    &&& forall|j: int| 0 <= j < r ==> running_count(keys, j) < running_count(keys, r)
}

pub open spec fn key_code(k: (i32, i32)) -> u64 {
    ((k.0 as u32) as u64 * 0x1_0000_0000 + (k.1 as u32) as u64) as u64
}

fn encode_key(k: (i32, i32)) -> (c: u64)
    ensures
        c == key_code(k),
{
    let hi = k.0 as u32 as u64;
    let lo = k.1 as u32 as u64;
    assert(hi * 0x1_0000_0000 + lo <= u64::MAX) by (nonlinear_arith)
        requires
            hi <= u32::MAX,
            lo <= u32::MAX,
    ;
    hi * 0x1_0000_0000 + lo
}

proof fn lemma_key_code_injective(a: (i32, i32), b: (i32, i32))
    requires
        key_code(a) == key_code(b),
    ensures
        a == b,
{
    let (ah, al) = ((a.0 as u32) as int, (a.1 as u32) as int);
    let (bh, bl) = ((b.0 as u32) as int, (b.1 as u32) as int);
    assert(ah == bh && al == bl) by (nonlinear_arith)
        requires
            ah * 0x1_0000_0000 + al == bh * 0x1_0000_0000 + bl,
            0 <= al < 0x1_0000_0000,
            0 <= bl < 0x1_0000_0000,
    ;
    let (x0, y0, x1, y1) = (a.0, b.0, a.1, b.1);
    assert(x0 == y0) by (bit_vector)
        requires
            x0 as u32 == y0 as u32,
    ;
    assert(x1 == y1) by (bit_vector)
        requires
            x1 as u32 == y1 as u32,
    ;
}

proof fn lemma_count_before_bound(keys: Seq<(i32, i32)>, i: nat, key: (i32, i32))
    ensures
        count_before(keys, i, key) <= i,
    decreases i,
{
    if i > 0 {
        lemma_count_before_bound(keys, (i - 1) as nat, key);
    }
}

/// Position of the most frequent key, as a running count finds it: a key
/// becomes the mode when its count exceeds the highest count so far.
pub fn mode_position(keys: &[(i32, i32)]) -> (r: usize)
    requires
        0 < keys@.len() <= u32::MAX,
    ensures
        is_mode_position(keys@, r as int),
{
    broadcast use vstd::std_specs::hash::group_hash_axioms;

    let n = keys.len();
    let mut counts: HashMap<u64, u32> = HashMap::new();
    let mut max_count: u32 = 0;
    let mut mode: usize = 0;
    let mut i: usize = 0;
    while i < n
        invariant
            n == keys@.len(),
            n <= u32::MAX,
            i <= n,
            forall|k: (i32, i32)|
                #![trigger key_code(k)]
                (if counts@.contains_key(key_code(k)) {
                    counts@[key_code(k)] as nat
                } else {
                    0nat
                }) == count_before(keys@, i as nat, k),
            i == 0 ==> max_count == 0 && mode == 0,
            i > 0 ==> {
                &&& mode < i
                &&& max_count == running_count(keys@, mode as int)
                &&& forall|j: int| 0 <= j < i ==> running_count(keys@, j) <= max_count
                &&& forall|j: int| 0 <= j < mode ==> running_count(keys@, j) < max_count
            },
        decreases n - i,
    {
        let key = keys[i];
        let code = encode_key(key);
        let old_count: u32 = match counts.get(&code) {
            Some(c) => *c,
            None => 0,
        };
        proof {
            assert(old_count == count_before(keys@, i as nat, key));
            lemma_count_before_bound(keys@, i as nat, key);
        }
        let c = old_count + 1;
        let ghost before = counts@;
        counts.insert(code, c);
        proof {
            assert forall|k: (i32, i32)|
                #![trigger key_code(k)]
                (if counts@.contains_key(key_code(k)) {
                    counts@[key_code(k)] as nat
                } else {
                    0nat
                }) == count_before(keys@, (i + 1) as nat, k) by {
                if k == key {
                } else {
                    if key_code(k) == code {
                        lemma_key_code_injective(k, key);
                    }
                    assert(before.contains_key(key_code(k)) == counts@.contains_key(key_code(k)));
                }
            }
            assert(running_count(keys@, i as int) == c);
        }
        if c > max_count {
            max_count = c;
            mode = i;
        }
        i = i + 1;
    }
    mode
}

} // verus!
