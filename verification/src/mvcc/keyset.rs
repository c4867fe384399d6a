//! Sets of byte strings.

use crate::bytes::{compare_bytes, lemma_lex_irreflexive, lemma_lex_transitive, lex_lt, KeyOrder};
use vstd::prelude::*;

verus! {

/// A set of keys, held in ascending order without repetition.
#[derive(Debug)]
pub struct KeySet {
    pub keys: Vec<Vec<u8>>,
}

impl View for KeySet {
    type V = Set<Seq<u8>>;

    open spec fn view(&self) -> Set<Seq<u8>> {
        Set::new(|k: Seq<u8>| exists|i: int| 0 <= i < self.keys@.len() && #[trigger] self.keys@[i]@ == k)
    }
}

impl KeySet {
    /// The keys ascend without repetition.
    pub open spec fn wf(&self) -> bool {
        forall|i: int, j: int|
            0 <= i < j < self.keys@.len() ==> lex_lt(
                #[trigger] self.keys@[i]@,
                #[trigger] self.keys@[j]@,
            )
    }

    pub fn new() -> (r: Self)
        ensures
            r.wf(),
            r@ == Set::<Seq<u8>>::empty(),
    {
        let r = KeySet { keys: Vec::new() };
        assert(r@ =~= Set::<Seq<u8>>::empty());
        r
    }

    /// The number of keys below `key`, and whether the next one is `key`.
    fn locate(&self, key: &[u8]) -> (r: (usize, bool))
        requires
            self.wf(),
        ensures
            r.0 <= self.keys@.len(),
            forall|i: int| 0 <= i < r.0 ==> lex_lt(#[trigger] self.keys@[i]@, key@),
            r.1 ==> r.0 < self.keys@.len() && self.keys@[r.0 as int]@ == key@,
            !r.1 ==> forall|i: int|
                r.0 <= i < self.keys@.len() ==> lex_lt(key@, #[trigger] self.keys@[i]@),
            r.1 == self@.contains(key@),
    {
        let mut lo: usize = 0;
        let mut hi: usize = self.keys.len();
        while lo < hi
            invariant
                self.wf(),
                lo <= hi <= self.keys@.len(),
                forall|i: int| 0 <= i < lo ==> lex_lt(#[trigger] self.keys@[i]@, key@),
                forall|i: int|
                    hi <= i < self.keys@.len() ==> lex_lt(key@, #[trigger] self.keys@[i]@),
            decreases hi - lo,
        {
            let mid: usize = lo + (hi - lo) / 2;
            match compare_bytes(self.keys[mid].as_slice(), key) {
                KeyOrder::Less => {
                    proof {
                        assert forall|i: int| 0 <= i < mid + 1 implies lex_lt(
                            #[trigger] self.keys@[i]@,
                            key@,
                        ) by {
                            if i < mid {
                                lemma_lex_transitive(self.keys@[i]@, self.keys@[mid as int]@, key@);
                            }
                        }
                    }
                    lo = mid + 1;
                },
                KeyOrder::Equal => {
                    assert(self.keys@[mid as int]@ == key@);
                    return (mid, true);
                },
                KeyOrder::Greater => {
                    proof {
                        assert forall|i: int| mid <= i < self.keys@.len() implies lex_lt(
                            key@,
                            #[trigger] self.keys@[i]@,
                        ) by {
                            if i > mid {
                                lemma_lex_transitive(key@, self.keys@[mid as int]@, self.keys@[i]@);
                            }
                        }
                    }
                    hi = mid;
                },
            }
        }
        proof {
            assert forall|i: int| 0 <= i < self.keys@.len() implies #[trigger] self.keys@[i]@
                != key@ by {
                lemma_lex_irreflexive(key@);
            }
        }
        (lo, false)
    }

    pub fn contains(&self, key: &[u8]) -> (r: bool)
        requires
            self.wf(),
        ensures
            r == self@.contains(key@),
    {
        self.locate(key).1
    }

    pub fn insert(&mut self, key: Vec<u8>)
        requires
            old(self).wf(),
        ensures
            final(self).wf(),
            final(self)@ == old(self)@.insert(key@),
    {
        let (at, found) = self.locate(key.as_slice());
        let ghost before = self.keys@;
        let ghost k = key@;
        if !found {
            self.keys.insert(at, key);
            proof {
                let now = self.keys@;
                assert forall|i: int, j: int| 0 <= i < j < now.len() implies lex_lt(
                    #[trigger] now[i]@,
                    #[trigger] now[j]@,
                ) by {
                    if i < at && j < at {
                        assert(lex_lt(before[i]@, before[j]@));
                    } else if i < at && j > at {
                        assert(lex_lt(before[i]@, before[j - 1]@));
                    } else if i > at {
                        assert(lex_lt(before[i - 1]@, before[j - 1]@));
                    } else if i == at {
                        assert(lex_lt(k, before[j - 1]@));
                    } else {
                        assert(lex_lt(before[i]@, k));
                    }
                }
                assert forall|x: Seq<u8>|
                    self@.contains(x) == old(self)@.insert(k).contains(x) by {
                    if old(self)@.contains(x) {
                        let i = choose|i: int| 0 <= i < before.len() && before[i]@ == x;
                        if i < at {
                            assert(now[i]@ == x);
                        } else {
                            assert(now[i + 1]@ == x);
                        }
                    }
                    if x == k {
                        assert(now[at as int]@ == x);
                    }
                    if self@.contains(x) && x != k {
                        let i = choose|i: int| 0 <= i < now.len() && now[i]@ == x;
                        if i < at {
                            assert(before[i]@ == x);
                        } else {
                            assert(before[i - 1]@ == x);
                        }
                    }
                }
                assert(self@ =~= old(self)@.insert(k));
            }
        } else {
            assert(self@ =~= old(self)@.insert(k));
        }
    }
}

impl Clone for KeySet {
    fn clone(&self) -> (r: Self)
        ensures
            r@ == self@,
            self.wf() ==> r.wf(),
    {
        let mut keys: Vec<Vec<u8>> = Vec::new();
        let mut i: usize = 0;
        while i < self.keys.len()
            invariant
                i <= self.keys@.len(),
                keys@.len() == i,
                forall|j: int| 0 <= j < i ==> (#[trigger] keys@[j])@ == self.keys@[j]@,
            decreases self.keys@.len() - i,
        {
            keys.push(crate::bytes::copy_bytes(self.keys[i].as_slice()));
            i = i + 1;
        }
        let r = KeySet { keys };
        proof {
            assert forall|x: Seq<u8>| r@.contains(x) == self@.contains(x) by {
                if self@.contains(x) {
                    let j = choose|j: int| 0 <= j < self.keys@.len() && self.keys@[j]@ == x;
                    assert(r.keys@[j]@ == x);
                }
            }
            assert(r@ =~= self@);
        }
        r
    }
}

} // verus!
