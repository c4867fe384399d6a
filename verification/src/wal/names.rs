//! Names of segment files.

use crate::text::{
    after_prefix, copy_str, lemma_zero_padded_round_trip, parse_number, parse_u64,
    push_zero_padded, strip_prefix, zero_padded,
};
use vstd::prelude::*;

verus! {

/// The name of the segment `seq`: `wal.` and eight digits.
pub open spec fn segment_file(seq: u64) -> Seq<char> {
    "wal."@ + zero_padded(seq as nat, 8)
}

/// The segment number that a file name carries.
pub open spec fn segment_number(name: Seq<char>) -> Option<nat> {
    match after_prefix(name, "wal."@) {
        Some(rest) => parse_number(rest, 10, u64::MAX as nat),
        None => None,
    }
}

/// The names of a vector.
pub open spec fn name_models(names: Seq<String>) -> Seq<Seq<char>> {
    names.map_values(|s: String| s@)
}

/// The name of the segment `seq`.
pub fn segment_name(seq: u64) -> (r: String)
    ensures
        r@ == segment_file(seq),
{
    let mut s = copy_str("wal.");
    push_zero_padded(&mut s, seq, 8);
    s
}

/// The segment number that a file name carries.
pub fn parse_segment(name: &str) -> (r: Option<u64>)
    ensures
        match (r, segment_number(name@)) {
            (Some(v), Some(w)) => v == w,
            (None, None) => true,
            _ => false,
        },
{
    match strip_prefix(name, "wal.") {
        Some(rest) => parse_u64(rest),
        None => None,
    }
}

/// `seqs` holds, ascending, the numbers of all names that are segments; a
/// number that several names carry occurs as often.
pub open spec fn numbers_listed(names: Seq<Seq<char>>, seqs: Seq<u64>) -> bool {
    &&& forall|i: int, j: int| 0 <= i < j < seqs.len() ==> #[trigger] seqs[i] <= #[trigger] seqs[j]
    &&& seqs.to_multiset() == numbers(names).to_multiset()
}

/// The segment numbers among the names, in the order of the names.
pub open spec fn numbers(names: Seq<Seq<char>>) -> Seq<u64>
    decreases names.len(),
{
    if names.len() == 0 {
        Seq::empty()
    } else {
        match segment_number(names.last()) {
            Some(n) => numbers(names.drop_last()).push(n as u64),
            None => numbers(names.drop_last()),
        }
    }
}

proof fn lemma_insert_multiset(s: Seq<u64>, p: int, x: u64)
    requires
        0 <= p <= s.len(),
    ensures
        s.insert(p, x).to_multiset() == s.to_multiset().insert(x),
{
    broadcast use vstd::seq_lib::group_to_multiset_ensures;

    s.to_multiset_ensures();
    vstd::seq_lib::lemma_multiset_commutative(s.take(p), s.skip(p));
    vstd::seq_lib::lemma_multiset_commutative(s.take(p).push(x), s.skip(p));
    assert(s.take(p) + s.skip(p) =~= s);
    assert(s.take(p).push(x) + s.skip(p) =~= s.insert(p, x));
    s.take(p).to_multiset_ensures();
    assert(s.insert(p, x).to_multiset() =~= s.to_multiset().insert(x));
}

/// The numbers of all segments among the names of a directory, ascending.
pub fn segment_numbers(names: &Vec<String>) -> (r: Vec<u64>)
    ensures
        numbers_listed(name_models(names@), r@),
{
    let mut out: Vec<u64> = Vec::new();
    let ghost all = name_models(names@);
    let mut i: usize = 0;
    assert(all.take(0) =~= Seq::<Seq<char>>::empty());
    while i < names.len()
        invariant
            i <= names@.len(),
            all == name_models(names@),
            numbers_listed(all.take(i as int), out@),
        decreases names@.len() - i,
    {
        proof {
            assert(all.take(i + 1).drop_last() =~= all.take(i as int));
            assert(all.take(i + 1).last() == names@[i as int]@);
        }
        match parse_segment(names[i].as_str()) {
            Some(n) => {
                let ghost before = out@;
                let mut p: usize = out.len();
                while p > 0 && out[p - 1] > n
                    invariant
                        p <= out@.len(),
                        out@ == before,
                        forall|j: int| p <= j < out@.len() ==> #[trigger] out@[j] > n,
                    decreases p,
                {
                    p = p - 1;
                }
                out.insert(p, n);
                proof {
                    broadcast use vstd::seq_lib::group_to_multiset_ensures;

                    lemma_insert_multiset(before, p as int, n);
                    let old_numbers = numbers(all.take(i as int));
                    old_numbers.to_multiset_ensures();
                    assert(numbers(all.take(i + 1)) == old_numbers.push(n));
                    assert forall|a: int, b: int| 0 <= a < b < out@.len() implies #[trigger] out@[a]
                        <= #[trigger] out@[b] by {
                        let x = if a < p {
                            a
                        } else {
                            a - 1
                        };
                        let y = if b < p {
                            b
                        } else {
                            b - 1
                        };
                        if a != p {
                            assert(out@[a] == before[x]);
                        }
                        if b != p {
                            assert(out@[b] == before[y]);
                        }
                        if a < p && p > 0 {
                            assert(before[a] <= before[p - 1]);
                        }
                    }
                }
            },
            None => {},
        }
        i = i + 1;
    }
    assert(all.take(i as int) =~= all);
    out
}

/// The segment with the highest number: its number, and the first name that
/// carries it.
pub fn latest_segment(names: &Vec<String>) -> (r: Option<(u64, usize)>)
    ensures
        match r {
            Some((seq, at)) => {
                &&& at < names@.len()
                &&& segment_number(names@[at as int]@) == Some(seq as nat)
                &&& forall|i: int|
                    0 <= i < names@.len() ==> (segment_number((#[trigger] names@[i])@) matches Some(
                        n,
                    ) ==> n <= seq && (n == seq ==> at <= i))
            },
            None => forall|i: int|
                0 <= i < names@.len() ==> segment_number((#[trigger] names@[i])@) is None,
        },
{
    let mut best: Option<(u64, usize)> = None;
    let mut i: usize = 0;
    while i < names.len()
        invariant
            i <= names@.len(),
            match best {
                Some((seq, at)) => {
                    &&& at < i
                    &&& segment_number(names@[at as int]@) == Some(seq as nat)
                    &&& forall|j: int|
                        0 <= j < i ==> (segment_number((#[trigger] names@[j])@) matches Some(n)
                            ==> n <= seq && (n == seq ==> at <= j))
                },
                None => forall|j: int|
                    0 <= j < i ==> segment_number((#[trigger] names@[j])@) is None,
            },
        decreases names@.len() - i,
    {
        match parse_segment(names[i].as_str()) {
            Some(n) => {
                let newer: bool = match best {
                    Some((seq, _)) => n > seq,
                    None => true,
                };
                if newer {
                    best = Some((n, i));
                }
            },
            None => {},
        }
        i = i + 1;
    }
    best
}

/// A segment's name carries its number.
pub proof fn law_segment_name_round_trip(seq: u64)
    ensures
        segment_number(segment_file(seq)) == Some(seq as nat),
{
    lemma_zero_padded_round_trip(seq as nat, 8);
    let digits = zero_padded(seq as nat, 8);
    let name = segment_file(seq);
    assert(name.take("wal."@.len() as int) =~= "wal."@);
    assert(name.skip("wal."@.len() as int) =~= digits);
}

} // verus!
