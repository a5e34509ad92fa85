//! Caller-side planning: which requests a batch of size `count` issues, and
//! how each request line is framed.

use vstd::prelude::*;

use crate::wire::{i32_to_dec, int_digits, push_all};

verus! {

/// The caller identifiers used for a batch of `count` work items: the batch
/// walks the inclusive range `0..=count`, so it issues `count + 1` requests
/// (none when `count` is negative).
pub fn request_ids(count: i32) -> (r: Vec<i32>)
    ensures
        r@.len() == if count >= 0 {
            count + 1
        } else {
            0
        },
        forall|k: int| 0 <= k < r@.len() ==> r@[k] == k,
{
    let mut r: Vec<i32> = Vec::new();
    if count < 0 {
        return r;
    }
    let mut i: i32 = 0;
    loop
        invariant_except_break
            0 <= i <= count,
            r@.len() == i,
            forall|k: int| 0 <= k < r@.len() ==> r@[k] == k,
        ensures
            r@.len() == count + 1,
            forall|k: int| 0 <= k < r@.len() ==> r@[k] == k,
        decreases count - i,
    {
        r.push(i);
        if i == count {
            break;
        }
        i = i + 1;
    }
    r
}

/// Frame one outbound request line: `callerId,kind`.
pub fn encode_request(caller_id: i32, kind: &Vec<u8>) -> (r: Vec<u8>)
    ensures
        r@ == int_digits(caller_id as int) + seq![44u8] + kind@,
{
    let mut r = i32_to_dec(caller_id);
    r.push(44);
    push_all(&mut r, kind);
    assert(r@ =~= int_digits(caller_id as int) + seq![44u8] + kind@);
    r
}

} // verus!
