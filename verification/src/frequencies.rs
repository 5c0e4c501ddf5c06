//! The atom behind `mode` and `cardinality`: it counts how often each
//! string was seen.

use vstd::prelude::*;
use crate::number::Comparison;
use crate::text::{bytes_eq, copy_bytes, lemma_lex_transitive, lex_compare, lex_comparison};

verus! {

/// A string and how often it was seen.
pub type Tally = (Seq<u8>, nat);

/// Some entry holds `key`.
pub open spec fn has_key(entries: Seq<Tally>, key: Seq<u8>) -> bool {
    exists|i: int| 0 <= i < entries.len() && (#[trigger] entries[i]).0 == key
}

/// No string is held twice.
pub open spec fn distinct_keys(entries: Seq<Tally>) -> bool {
    forall|i: int, j: int|
        0 <= i < j < entries.len() ==> (#[trigger] entries[i]).0 != (#[trigger] entries[j]).0
}

/// Whether `after` is `before` with the string `key` seen once more: its
/// entry counts one more, or a new entry with count one is added at the end.
pub open spec fn is_tally_step(before: Seq<Tally>, key: Seq<u8>, after: Seq<Tally>) -> bool {
    if has_key(before, key) {
        exists|i: int|
            0 <= i < before.len() && (#[trigger] before[i]).0 == key && after == before.update(
                i,
                (key, before[i].1 + 1),
            )
    } else {
        after == before.push((key, 1nat))
    }
}

/// `a` does not rank above `b`: it was seen less often, or as often and its
/// string does not come after that of `b`.
pub open spec fn ranks_at_most(a: Tally, b: Tally) -> bool {
    a.1 < b.1 || (a.1 == b.1 && lex_comparison(a.0, b.0) != Comparison::Greater)
}

/// Entry `i` ranks highest: it is the most frequent string, and among the
/// most frequent ones the lexicographically greatest.
pub open spec fn is_mode_at(entries: Seq<Tally>, i: int) -> bool {
    &&& 0 <= i < entries.len()
    &&& forall|j: int| 0 <= j < entries.len() ==> ranks_at_most(#[trigger] entries[j], entries[i])
}

/// Counts how often each string was seen.
#[derive(Debug, Clone)]
pub struct Frequencies {
    keys: Vec<Vec<u8>>,
    counts: Vec<usize>,
}

impl View for Frequencies {
    type V = Seq<Tally>;

    closed spec fn view(&self) -> Seq<Tally> {
        Seq::new(self.keys@.len(), |i: int| (self.keys@[i]@, self.counts@[i] as nat))
    }
}

impl Frequencies {
    /// Every string is held once, with a count of at least one.
    pub closed spec fn wf(&self) -> bool {
        &&& self.keys@.len() == self.counts@.len()
        &&& distinct_keys(self@)
        &&& forall|i: int| 0 <= i < self.counts@.len() ==> self.counts@[i] >= 1
    }

    /// No string was seen more than `bound` times, and no more than `bound`
    /// strings are held.
    pub open spec fn counts_at_most(entries: Seq<Tally>, bound: nat) -> bool {
        &&& entries.len() <= bound
        &&& forall|i: int| 0 <= i < entries.len() ==> (#[trigger] entries[i]).1 <= bound
    }

    pub fn new() -> (r: Self)
        ensures
            r.wf(),
            r@ == Seq::<Tally>::empty(),
    {
        let r = Self { keys: Vec::new(), counts: Vec::new() };
        assert(r@ =~= Seq::<Tally>::empty());
        r
    }

    pub fn clear(&mut self)
        ensures
            final(self).wf(),
            final(self)@ == Seq::<Tally>::empty(),
    {
        self.keys.clear();
        self.counts.clear();
        assert(self@ =~= Seq::<Tally>::empty());
    }

    /// The position of `value` among the strings held.
    fn position(&self, value: &[u8]) -> (r: Option<usize>)
        requires
            self.wf(),
        ensures
            match r {
                Some(i) => i < self@.len() && self@[i as int].0 == value@,
                None => !has_key(self@, value@),
            },
    {
        let mut i: usize = 0;
        while i < self.keys.len()
            invariant
                i <= self.keys.len(),
                self.wf(),
                forall|j: int| 0 <= j < i ==> (#[trigger] self@[j]).0 != value@,
            decreases self.keys.len() - i,
        {
            if bytes_eq(self.keys[i].as_slice(), value) {
                return Some(i);
            }
            i += 1;
        }
        None
    }

    /// Counts `value` once more.
    pub fn add(&mut self, value: Vec<u8>)
        requires
            old(self).wf(),
            Self::counts_at_most(old(self)@, (usize::MAX - 1) as nat),
        ensures
            final(self).wf(),
            is_tally_step(old(self)@, value@, final(self)@),
            forall|bound: nat|
                Self::counts_at_most(old(self)@, bound) ==> #[trigger] Self::counts_at_most(
                    final(self)@,
                    bound + 1,
                ),
    {
        let ghost before = self@;
        match self.position(value.as_slice()) {
            Some(i) => {
                let count = self.counts[i];
                assert(before[i as int].1 == count);
                self.counts.set(i, count + 1);
                proof {
                    assert(self@ =~= before.update(i as int, (value@, before[i as int].1 + 1)));
                    assert(has_key(before, value@));
                }
            },
            None => {
                self.keys.push(value);
                self.counts.push(1);
                proof {
                    assert(self@ =~= before.push((value@, 1nat)));
                    assert forall|i: int, j: int| 0 <= i < j < self@.len() implies (
                    #[trigger] self@[i]).0 != (#[trigger] self@[j]).0 by {
                        if j < before.len() {
                            assert(self@[i] == before[i] && self@[j] == before[j]);
                        } else {
                            assert(self@[i] == before[i]);
                        }
                    }
                }
            },
        }
    }

    /// The most frequent string; among the most frequent ones, the
    /// lexicographically greatest. None while nothing was seen.
    pub fn mode(&self) -> (r: Option<Vec<u8>>)
        requires
            self.wf(),
        ensures
            match r {
                Some(key) => exists|i: int| is_mode_at(self@, i) && (#[trigger] self@[i]).0 == key@,
                None => self@.len() == 0,
            },
    {
        if self.keys.len() == 0 {
            return None;
        }
        let mut best: usize = 0;
        let mut i: usize = 1;
        proof {
            crate::text::lemma_lex_equal(self@[0].0, self@[0].0);
        }
        while i < self.keys.len()
            invariant
                1 <= i <= self.keys.len(),
                best < i,
                self.wf(),
                forall|j: int| 0 <= j < i ==> ranks_at_most(#[trigger] self@[j], self@[best as int]),
            decreases self.keys.len() - i,
        {
            let count = self.counts[i];
            let best_count = self.counts[best];
            let higher = if count != best_count {
                count > best_count
            } else {
                lex_compare(self.keys[i].as_slice(), self.keys[best].as_slice())
                    == Comparison::Greater
            };
            if higher {
                proof {
                    let winner = self@[i as int];
                    let loser = self@[best as int];
                    assert forall|j: int| 0 <= j < i + 1 implies ranks_at_most(
                        #[trigger] self@[j],
                        winner,
                    ) by {
                        if j < i {
                            let other = self@[j];
                            assert(ranks_at_most(other, loser));
                            if other.1 == loser.1 && loser.1 == winner.1 {
                                crate::text::lemma_lex_flip(winner.0, loser.0);
                                lemma_lex_transitive(other.0, loser.0, winner.0);
                            }
                        } else {
                            crate::text::lemma_lex_equal(winner.0, winner.0);
                        }
                    }
                }
                best = i;
            } else {
                proof {
                    crate::text::lemma_lex_flip(self@[i as int].0, self@[best as int].0);
                }
            }
            i += 1;
        }
        proof {
            assert(is_mode_at(self@, best as int));
        }
        Some(copy_bytes(self.keys[best].as_slice()))
    }

    /// How many different strings were seen.
    pub fn cardinality(&self) -> (r: usize)
        requires
            self.wf(),
        ensures
            r == self@.len(),
    {
        self.keys.len()
    }

    pub fn duplicate(&self) -> (r: Self)
        requires
            self.wf(),
        ensures
            r.wf(),
            r@ == self@,
    {
        let mut keys: Vec<Vec<u8>> = Vec::new();
        let mut counts: Vec<usize> = Vec::new();
        let mut i: usize = 0;
        while i < self.keys.len()
            invariant
                i <= self.keys.len(),
                self.keys@.len() == self.counts@.len(),
                keys@.len() == i,
                counts@.len() == i,
                forall|j: int| 0 <= j < i ==> (#[trigger] keys@[j])@ == self.keys@[j]@,
                forall|j: int| 0 <= j < i ==> #[trigger] counts@[j] == self.counts@[j],
            decreases self.keys.len() - i,
        {
            keys.push(copy_bytes(self.keys[i].as_slice()));
            counts.push(self.counts[i]);
            i += 1;
        }
        let r = Self { keys, counts };
        proof {
            assert(r@ =~= self@);
        }
        r
    }
}

} // verus!
