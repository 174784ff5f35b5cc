//! The frames over a box, and what the reader's folds hide of it.

use vstd::prelude::*;

use crate::fn_model::{FnModel, Spot};
use crate::fn_query::{first_pack, id_in, spec_over, spot_in, walk_up};
use crate::fn_reading::{fold_views, mod_fold, FoldAt, FoldView};

verus! {

broadcast use vstd::std_specs::hash::group_hash_axioms;

impl FnModel {
    /// Every frame this one stands inside, outward.
    pub fn over(&self, frame: u32) -> (out: Vec<u32>)
        ensures
            out@ == spec_over(self.frames@, frame as int),
    {
        let ghost frames = self.frames@;
        let n = self.frames.len();
        let mut out: Vec<u32> = Vec::new();
        let mut at: Option<u32> = if (frame as usize) < n {
            self.frames[frame as usize].parent
        } else {
            None
        };
        loop
            invariant
                n == frames.len(),
                frames == self.frames@,
                spec_over(frames, frame as int) == walk_up(frames, at, out@, (n + 1 - out@.len()) as nat),
                out@.no_duplicates(),
                out@.len() <= n + 1,
                at is Some ==> forall|k: int| 0 <= k < out@.len() ==> (#[trigger] out@[k] as int) < n,
            decreases n + 1 - out@.len(),
        {
            let up = match at {
                None => {
                    return out;
                },
                Some(up) => up,
            };
            proof {
                lemma_distinct_frames(out@, n as nat);
            }
            if id_in(&out, up) {
                return out;
            }
            let ghost before = out@;
            out.push(up);
            proof {
                assert forall|a: int, b: int| 0 <= a < out@.len() && 0 <= b < out@.len() && a != b implies out@[a]
                    != out@[b] by {
                    if a < before.len() && b < before.len() {
                        assert(before[a] != before[b]);
                    } else if a < before.len() {
                        assert(before.contains(before[a]));
                    } else if b < before.len() {
                        assert(before.contains(before[b]));
                    }
                }
            }
            at = if (up as usize) < n {
                self.frames[up as usize].parent
            } else {
                None
            };
            proof {
                if at is Some {
                    assert forall|k: int| 0 <= k < out@.len() implies (#[trigger] out@[k] as int) < n by {
                        if k < before.len() {
                            assert(out@[k] == before[k]);
                        }
                    }
                }
            }
        }
    }

    /// Whether a fold has this box off the paper.
    pub fn hidden(&self, spot: Spot) -> (b: bool)
        ensures
            b == first_pack(self.packs@, spot) is Some,
    {
        match self.pack_of(spot) {
            Some(_) => true,
            None => false,
        }
    }

    /// The box that stands for another on the paper: itself where it is
    /// drawn, and the outermost fold hiding it where it is not.
    pub fn shown(&self, spot: Spot) -> (s: Spot)
        ensures
            s == self.spec_shown(spot),
    {
        match self.pack_of(spot) {
            Some(s) => s,
            None => spot,
        }
    }

    fn pack_of(&self, spot: Spot) -> (r: Option<Spot>)
        ensures
            r == first_pack(self.packs@, spot),
    {
        let mut i: usize = 0;
        assert(self.packs@.skip(0) =~= self.packs@);
        while i < self.packs.len()
            invariant
                i <= self.packs@.len(),
                first_pack(self.packs@, spot) == first_pack(self.packs@.skip(i as int), spot),
            decreases self.packs.len() - i,
        {
            let (hid, by) = self.packs[i];
            assert(self.packs@.skip(i as int)[0] == self.packs@[i as int]);
            if hid == spot {
                return Some(by);
            }
            assert(self.packs@.skip(i as int).drop_first() =~= self.packs@.skip(i + 1));
            i = i + 1;
        }
        None
    }

    /// The folds standing between the paper and one box, outermost first:
    /// what a reveal has to open before it can be seen. A box's own border
    /// is on the paper whatever its fold says, so nothing here asks a box to
    /// open itself.
    pub fn reveal_folds(&self, spot: Spot) -> (out: Vec<FoldAt>)
        ensures
            fold_views(out@) == self.spec_reveal(spot),
    {
        let mut out: Vec<FoldAt> = Vec::new();
        if self.folded.len() == 0 {
            assert(fold_views(out@) =~= Seq::<FoldView>::empty());
            return out;
        }
        let chain: Vec<u32> = match spot {
            Spot::Frame(id) => reversed(&self.over(id)),
            other => {
                match self.frame_of(other) {
                    None => {
                        assert(fold_views(out@) =~= Seq::<FoldView>::empty());
                        return out;
                    },
                    Some(frame) => {
                        let mut chain = reversed(&self.over(frame));
                        chain.push(frame);
                        chain
                    },
                }
            },
        };
        let mut i: usize = 0;
        while i < chain.len()
            invariant
                i <= chain@.len(),
                fold_views(out@) == self.frame_folds(chain@.take(i as int)),
            decreases chain.len() - i,
        {
            let id = chain[i];
            let ghost before = out@;
            assert(chain@.take(i + 1).drop_last() =~= chain@.take(i as int));
            if spot_in(&self.folded, Spot::Frame(id)) && (id as usize) < self.frames.len() {
                let key = self.frames[id as usize].key();
                let f = mod_fold(key.as_slice());
                out.push(f);
                assert(fold_views(out@) =~= fold_views(before).push(f.view()));
            }
            i = i + 1;
        }
        assert(chain@.take(chain@.len() as int) =~= chain@);
        let ghost framed = out@;
        if let Spot::Mark(id) = spot {
            if let Some(Spot::Owner(at)) = self.home.get(&id) {
                if spot_in(&self.folded, Spot::Owner(*at)) && (*at as usize) < self.owners.len() {
                    let f = self.owners[*at as usize].key();
                    out.push(f);
                    assert(fold_views(out@) =~= fold_views(framed)
                        + self.owner_fold_of(spot));
                    return out;
                }
            }
        }
        assert(fold_views(out@) =~= fold_views(framed)
            + self.owner_fold_of(spot));
        out
    }

}

/// A list of distinct frame indices below `n` is at most `n` long.
proof fn lemma_distinct_frames(s: Seq<u32>, n: nat)
    requires
        s.no_duplicates(),
        forall|k: int| 0 <= k < s.len() ==> (#[trigger] s[k] as int) < n,
    ensures
        s.len() <= n,
{
    crate::reach::lemma_distinct_below(s, n);
}

/// A list read back to front.
fn reversed(v: &Vec<u32>) -> (out: Vec<u32>)
    ensures
        out@ == v@.reverse(),
{
    let mut out: Vec<u32> = Vec::new();
    let mut i: usize = v.len();
    while i > 0
        invariant
            i <= v@.len(),
            out@ == v@.skip(i as int).reverse(),
        decreases i,
    {
        i = i - 1;
        out.push(v[i]);
        assert(out@ =~= v@.skip(i as int).reverse());
    }
    assert(v@.skip(0) =~= v@);
    out
}

} // verus!
