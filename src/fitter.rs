//! Magnitudes as little-endian 64-bit words.

use vstd::prelude::*;

verus! {

/// Value of little-endian base-2^64 words.
pub open spec fn words_value(ws: Seq<u64>) -> nat
    decreases ws.len(),
{
    if ws.len() == 0 {
        0
    } else {
        ws[0] as nat + 0x1_0000_0000_0000_0000 * words_value(ws.subrange(1, ws.len() as int))
    }
}

/// A magnitude held as little-endian 64-bit words.
#[derive(Clone, Debug)]
pub struct BigUintFitter {
    pub data: Vec<u64>,
}

proof fn lemma_drop_zero_word(ws: Seq<u64>)
    requires
        ws.len() > 0,
        ws[ws.len() - 1] == 0,
    ensures
        words_value(ws) == words_value(ws.drop_last()),
    decreases ws.len(),
{
    if ws.len() == 1 {
        assert(words_value(ws.subrange(1, 1)) == 0);
        assert(words_value(ws.drop_last()) == 0);
    } else {
        let rest = ws.subrange(1, ws.len() as int);
        assert(rest[rest.len() - 1] == 0);
        lemma_drop_zero_word(rest);
        assert(rest.drop_last() =~= ws.drop_last().subrange(1, ws.len() - 1));
    }
}

impl BigUintFitter {
    /// Drops the most significant zero words, so that the top word, if any,
    /// is not zero. The value is unchanged.
    pub fn normalize(&mut self)
        ensures
            words_value(final(self).data@) == words_value(old(self).data@),
            final(self).data@ == old(self).data@.subrange(0, final(self).data.len() as int),
            final(self).data.len() > 0 ==> final(self).data@[final(self).data.len() - 1] != 0,
            forall|i: int| final(self).data.len() <= i < old(self).data.len() ==> old(self).data@[i] == 0,
    {
        let ghost orig = self.data@;
        while self.data.len() > 0 && self.data[self.data.len() - 1] == 0
            invariant
                words_value(self.data@) == words_value(orig),
                self.data.len() <= orig.len(),
                self.data@ == orig.subrange(0, self.data.len() as int),
                forall|i: int| self.data.len() <= i < orig.len() ==> orig[i] == 0,
            decreases self.data.len(),
        {
            proof {
                lemma_drop_zero_word(self.data@);
            }
            self.data.pop();
        }
    }
}

} // verus!
