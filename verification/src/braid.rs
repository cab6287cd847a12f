//! The braid-word data model and its mutation operations.
use vstd::prelude::*;

verus! {

/// Magnitude of a signed generator.
pub open spec fn magnitude(g: int) -> int {
    if g < 0 {
        -g
    } else {
        g
    }
}

/// A generator is admissible for a given strand count when it is nonzero and
/// its magnitude names a pair of adjacent strands, i.e. `1 <= |g| <= strands - 1`.
pub open spec fn crossing_in_range(g: int, strands: int) -> bool {
    g != 0 && magnitude(g) <= strands - 1
}

/// The mathematical value of a braid word: a strand count and the ordered
/// sequence of signed generators.
#[verifier::ext_equal]
pub ghost struct BraidView {
    pub strands: u32,
    pub crossings: Seq<i32>,
}

impl BraidView {
    /// The invariants of a braid word: at least two strands, and every
    /// crossing names a pair of adjacent strands.
    pub open spec fn wf(&self) -> bool {
        &&& self.strands >= 2
        &&& forall|k: int|
            0 <= k < self.crossings.len() ==> crossing_in_range(
                (#[trigger] self.crossings[k]) as int,
                self.strands as int,
            )
    }
}

/// A braid word: `strands` parallel strands crossed by the ordered
/// generator sequence `crossings`.
#[derive(Debug, PartialEq)]
pub struct Braid {
    pub strands: u32,
    pub crossings: Vec<i32>,
}

impl View for Braid {
    type V = BraidView;

    open spec fn view(&self) -> BraidView {
        BraidView { strands: self.strands, crossings: self.crossings@ }
    }
}

impl Braid {
    /// The invariants of the data model, stated on the concrete value.
    pub open spec fn wf(&self) -> bool {
        self@.wf()
    }

    /// A braid with the default strand count and no crossings.
    pub fn new() -> (r: Braid)
        ensures
            r@.strands == 10,
            r@.crossings == Seq::<i32>::empty(),
            r.wf(),
    {
        Braid::init(10)
    }

    /// A braid with the given strand count and no crossings.
    pub fn init(strands: u32) -> (r: Braid)
        requires
            strands >= 2,
        ensures
            r@.strands == strands,
            r@.crossings == Seq::<i32>::empty(),
            r.wf(),
    {
        Braid { strands, crossings: vec![] }
    }

    /// Adds one strand. The crossing sequence is never altered: the range of
    /// admissible magnitudes only grows.
    pub fn add_strand(&mut self)
        requires
            old(self).strands < u32::MAX,
        ensures
            final(self).strands == old(self).strands + 1,
            final(self).crossings@ == old(self).crossings@,
            old(self).wf() ==> final(self).wf(),
    {
        self.strands = self.strands + 1;
        proof {
            if old(self).wf() {
                assert forall|k: int| 0 <= k < self@.crossings.len() implies crossing_in_range(
                    (self@.crossings[k]) as int,
                    self@.strands as int,
                ) by {
                    assert(self@.crossings[k] == old(self)@.crossings[k]);
                    assert(crossing_in_range(
                        (old(self)@.crossings[k]) as int,
                        old(self)@.strands as int,
                    ));
                }
            }
        }
    }

    /// Removes one strand when more than two remain (a no-op otherwise), and
    /// drops every crossing whose magnitude no longer names a pair of
    /// adjacent strands, keeping the relative order of the rest.
    pub fn remove_strand(&mut self)
        ensures
            old(self).strands <= 2 ==> *final(self) == *old(self),
            old(self).strands > 2 ==> final(self).strands == old(self).strands - 1,
            old(self).strands > 2 ==> final(self).crossings@ == retained(
                old(self).crossings@,
                old(self).strands - 1,
            ),
            old(self).wf() ==> final(self).wf(),
    {
        if self.strands <= 2 {
            return ;
        }
        self.strands = self.strands - 1;
        let ghost all = self.crossings@;
        let ghost limit = self.strands as int;
        let mut kept: Vec<i32> = Vec::new();
        let mut k: usize = 0;
        while k < self.crossings.len()
            invariant
                k <= all.len(),
                self.crossings@ == all,
                kept@ == retained(all.take(k as int), limit),
            decreases all.len() - k,
        {
            let g: i32 = self.crossings[k];
            let keep = crossing_in_range_exec(g, self.strands);
            if keep {
                kept.push(g);
            }
            proof {
                assert(all.take(k + 1).drop_last() =~= all.take(k as int));
                assert(all.take(k + 1).last() == all[k as int]);
            }
            k = k + 1;
        }
        proof {
            assert(all.take(all.len() as int) =~= all);
        }
        self.crossings = kept;
        proof {
            if old(self).wf() {
                lemma_retained_in_range(all, limit);
            }
        }
    }

    /// Appends the crossing when it is admissible for the current strand
    /// count; an inadmissible request is a no-op.
    pub fn add_crossing(&mut self, g: i32)
        ensures
            crossing_in_range(g as int, old(self).strands as int) ==> final(self).crossings@ == old(
                self,
            ).crossings@.push(g),
            !crossing_in_range(g as int, old(self).strands as int) ==> *final(self) == *old(self),
            final(self).strands == old(self).strands,
            old(self).wf() ==> final(self).wf(),
    {
        if crossing_in_range_exec(g, self.strands) {
            self.crossings.push(g);
            proof {
                if old(self).wf() {
                    assert forall|k: int| 0 <= k < self@.crossings.len() implies crossing_in_range(
                        (self@.crossings[k]) as int,
                        self@.strands as int,
                    ) by {
                        if k < old(self).crossings@.len() {
                            assert(self@.crossings[k] == old(self)@.crossings[k]);
                        } else {
                            assert(self@.crossings[k] == g);
                        }
                    }
                }
            }
        }
    }

    /// Removes the last crossing; a no-op on an empty sequence.
    pub fn remove_last_crossing(&mut self)
        ensures
            old(self).crossings@.len() > 0 ==> final(self).crossings@ == old(
                self,
            ).crossings@.drop_last(),
            old(self).crossings@.len() == 0 ==> *final(self) == *old(self),
            final(self).strands == old(self).strands,
            old(self).wf() ==> final(self).wf(),
    {
        if self.crossings.len() > 0 {
            let _ = self.crossings.pop();
            proof {
                if old(self).wf() {
                    assert forall|k: int| 0 <= k < self@.crossings.len() implies crossing_in_range(
                        (self@.crossings[k]) as int,
                        self@.strands as int,
                    ) by {
                        assert(self@.crossings[k] == old(self)@.crossings[k]);
                    }
                }
            }
        }
    }
}

/// Executable test of `crossing_in_range`; the magnitude is taken in 64-bit
/// arithmetic so that `i32::MIN` is handled exactly.
pub fn crossing_in_range_exec(g: i32, strands: u32) -> (r: bool)
    ensures
        r == crossing_in_range(g as int, strands as int),
{
    if g == 0 {
        return false;
    }
    let wide: i64 = g as i64;
    let mag: i64 = if wide < 0 {
        -wide
    } else {
        wide
    };
    mag <= strands as i64 - 1
}

/// The crossings that survive a shrink to `strands` strands, in order.
pub open spec fn retained(cs: Seq<i32>, strands: int) -> Seq<i32>
    decreases cs.len(),
{
    if cs.len() == 0 {
        Seq::empty()
    } else {
        let rest = retained(cs.drop_last(), strands);
        if crossing_in_range(cs.last() as int, strands) {
            rest.push(cs.last())
        } else {
            rest
        }
    }
}

/// Every retained crossing is admissible for the shrunken strand count.
pub proof fn lemma_retained_in_range(cs: Seq<i32>, strands: int)
    ensures
        forall|k: int|
            0 <= k < retained(cs, strands).len() ==> crossing_in_range(
                (#[trigger] retained(cs, strands)[k]) as int,
                strands,
            ),
    decreases cs.len(),
{
    if cs.len() > 0 {
        lemma_retained_in_range(cs.drop_last(), strands);
        let rest = retained(cs.drop_last(), strands);
        assert forall|k: int| 0 <= k < retained(cs, strands).len() implies crossing_in_range(
            (retained(cs, strands)[k]) as int,
            strands,
        ) by {
            if crossing_in_range(cs.last() as int, strands) {
                assert(retained(cs, strands) == rest.push(cs.last()));
                if k < rest.len() {
                    assert(retained(cs, strands)[k] == rest[k]);
                } else {
                    assert(retained(cs, strands)[k] == cs.last());
                }
            } else {
                assert(retained(cs, strands) == rest);
                assert(retained(cs, strands)[k] == rest[k]);
            }
        }
    }
}

} // verus!
