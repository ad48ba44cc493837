//! The running tally of squid eaten by tuna.
use vstd::prelude::*;

verus! {

/// How many entries of `caught` are set.
pub open spec fn count_caught(caught: Seq<bool>) -> nat
    decreases caught.len(),
{
    if caught.len() == 0 {
        0
    } else {
        count_caught(caught.drop_last()) + if caught.last() {
            1nat
        } else {
            0nat
        }
    }
}

/// Running tally of how many squid the tuna have eaten.
pub struct Score {
    pub eaten: u32,
}

impl Default for Score {
    fn default() -> (s: Score)
        ensures
            s.eaten == 0,
    {
        Score { eaten: 0 }
    }
}

impl Score {
    /// Count one squid eaten for each set entry of `caught` (entry `i` says
    /// whether squid `i` was caught this frame).
    pub fn record_catches(&mut self, caught: &[bool])
        requires
            old(self).eaten + count_caught(caught@) <= u32::MAX,
        ensures
            final(self).eaten == old(self).eaten + count_caught(caught@),
    {
        let mut i: usize = 0;
        while i < caught.len()
            invariant
                i <= caught@.len(),
                self.eaten == old(self).eaten + count_caught(caught@.subrange(0, i as int)),
                old(self).eaten + count_caught(caught@) <= u32::MAX,
            decreases caught@.len() - i,
        {
            let ghost before = caught@.subrange(0, i as int);
            let ghost after = caught@.subrange(0, i + 1);
            assert(after.drop_last() =~= before);
            proof {
                lemma_count_caught_prefix(caught@, i + 1);
            }
            if caught[i] {
                self.eaten = self.eaten + 1;
            }
            i = i + 1;
        }
        assert(caught@.subrange(0, i as int) =~= caught@);
    }
}

/// A prefix never holds more catches than the whole.
proof fn lemma_count_caught_prefix(s: Seq<bool>, k: int)
    requires
        0 <= k <= s.len(),
    ensures
        count_caught(s.subrange(0, k)) <= count_caught(s),
    decreases s.len() - k,
{
    if k < s.len() {
        lemma_count_caught_prefix(s, k + 1);
        assert(s.subrange(0, k + 1).drop_last() =~= s.subrange(0, k));
    } else {
        assert(s.subrange(0, k) =~= s);
    }
}

/// One squid looked at counts one catch if it was caught and none if not.
pub proof fn lemma_catch_single(b: bool)
    ensures
        count_caught(seq![b]) == if b {
            1nat
        } else {
            0nat
        },
{
    assert(seq![b].drop_last() =~= Seq::<bool>::empty());
    assert(seq![b].last() == b);
    assert(count_caught(Seq::<bool>::empty()) == 0);
}

/// Catches recorded over two frames add up: the tally after the frames is
/// the same as after one frame holding both.
pub proof fn lemma_catches_add(a: Seq<bool>, b: Seq<bool>)
    ensures
        count_caught(a + b) == count_caught(a) + count_caught(b),
    decreases b.len(),
{
    if b.len() == 0 {
        assert(a + b =~= a);
    } else {
        assert((a + b).drop_last() =~= a + b.drop_last());
        lemma_catches_add(a, b.drop_last());
    }
}

} // verus!
