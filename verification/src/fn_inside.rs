//! What one box of the function chart holds, however deep.

use std::collections::HashSet;

use vstd::prelude::*;

use crate::fn_model::{Container, FnModel, Frame, Spot};
use crate::fn_query::{frame_holds, frames_nest, holds_in, owner_holds, under};

verus! {

broadcast use vstd::std_specs::hash::group_hash_axioms;

impl FnModel {
    /// Every mark one box holds: a container's methods, a frame's free
    /// declarations and everything nested inside it, a mark itself.
    pub fn inside(&self, spot: Spot) -> (r: HashSet<u32>)
        requires
            frames_nest(self.frames@),
            self.frames@.len() <= u32::MAX,
        ensures
            r@ == self.spec_inside(spot),
    {
        let mut r: HashSet<u32> = HashSet::new();
        match spot {
            Spot::Mark(id) => {
                r.insert(id);
                assert(r@ =~= set![id]);
            },
            Spot::Owner(id) => {
                if (id as usize) < self.owners.len() {
                    add_all(&mut r, &self.owners[id as usize].marks);
                }
                assert(r@ =~= self.spec_inside(spot));
            },
            Spot::Frame(id) => {
                let flags = self.under_flags(id);
                let mut j: usize = 0;
                while j < self.frames.len()
                    invariant
                        j <= self.frames@.len(),
                        flags@.len() == self.frames@.len(),
                        forall|f: int| 0 <= f < self.frames@.len() ==> (flags@[f] <==> under(self.frames@, id as int, f)),
                        forall|m: u32|
                            #[trigger] r@.contains(m) <==> exists|f: int|
                                0 <= f < j && #[trigger] under(self.frames@, id as int, f) && frame_holds(
                                    self.frames@,
                                    self.owners@,
                                    f,
                                    m,
                                ),
                    decreases self.frames.len() - j,
                {
                    let ghost before = r@;
                    if flags[j] {
                        add_frame(&mut r, &self.frames[j], &self.owners);
                    }
                    proof {
                        assert forall|m: u32|
                            #[trigger] r@.contains(m) <==> exists|f: int|
                                0 <= f < j + 1 && #[trigger] under(self.frames@, id as int, f) && frame_holds(
                                    self.frames@,
                                    self.owners@,
                                    f,
                                    m,
                                ) by {
                            if r@.contains(m) && !before.contains(m) {
                                assert(under(self.frames@, id as int, j as int) && frame_holds(
                                    self.frames@,
                                    self.owners@,
                                    j as int,
                                    m,
                                ));
                            }
                            if before.contains(m) {
                                let f = choose|f: int|
                                    0 <= f < j && #[trigger] under(self.frames@, id as int, f) && frame_holds(
                                        self.frames@,
                                        self.owners@,
                                        f,
                                        m,
                                    );
                                assert(0 <= f < j + 1);
                            }
                        }
                    }
                    j = j + 1;
                }
                proof {
                    assert forall|m: u32| r@.contains(m) <==> self.spec_inside(spot).contains(m) by {
                        if self.spec_inside(spot).contains(m) {
                            let f = choose|f: int|
                                #[trigger] under(self.frames@, id as int, f) && frame_holds(
                                    self.frames@,
                                    self.owners@,
                                    f,
                                    m,
                                );
                            assert(0 <= f < self.frames@.len());
                        }
                    }
                    assert(r@ =~= self.spec_inside(spot));
                }
            },
        }
        r
    }

    /// Which frames stand at or under `id`, flag by frame.
    fn under_flags(&self, id: u32) -> (flags: Vec<bool>)
        requires
            frames_nest(self.frames@),
            self.frames@.len() <= u32::MAX,
        ensures
            flags@.len() == self.frames@.len(),
            forall|f: int| 0 <= f < self.frames@.len() ==> (flags@[f] <==> under(self.frames@, id as int, f)),
    {
        let ghost frames = self.frames@;
        let n = self.frames.len();
        let mut flags: Vec<bool> = Vec::new();
        let mut f: usize = 0;
        while f < n
            invariant
                f <= n,
                n == frames.len(),
                frames == self.frames@,
                flags@.len() == f,
                forall|g: int| 0 <= g < f ==> (flags@[g] <==> g == id),
            decreases n - f,
        {
            flags.push(f == id as usize);
            f = f + 1;
        }
        let mut j: usize = 0;
        while j < n
            invariant
                j <= n,
                n == frames.len(),
                frames == self.frames@,
                frames_nest(frames),
                n <= u32::MAX,
                flags@.len() == n,
                forall|g: int| 0 <= g < n ==> (flags@[g] <==> reached_before(frames, id as int, g, j as int)),
            decreases n - j,
        {
            proof {
                lemma_reached_before_settles(frames, id as int, j as int);
            }
            if flags[j] {
                let ghost mid = flags@;
                mark_kids(&mut flags, &self.frames[j].kids);
                proof {
                    assert forall|g: int| 0 <= g < n implies (flags@[g] <==> reached_before(frames, id as int, g, j + 1)) by {
                        lemma_reached_before_step(frames, id as int, g, j as int);
                    }
                }
            } else {
                proof {
                    assert forall|g: int| 0 <= g < n implies (flags@[g] <==> reached_before(frames, id as int, g, j + 1)) by {
                        lemma_reached_before_step(frames, id as int, g, j as int);
                    }
                }
            }
            j = j + 1;
        }
        proof {
            assert forall|g: int| 0 <= g < n implies (flags@[g] <==> under(frames, id as int, g)) by {
                lemma_reached_before_settles(frames, id as int, g);
                lemma_reached_before_late(frames, id as int, g, n as int);
            }
        }
        flags
    }
}

/// Frame `g` is `id`, or a kid of a frame before `j` that stands under `id`.
pub open spec fn reached_before(frames: Seq<Frame>, id: int, g: int, j: int) -> bool {
    g == id || exists|p: int|
        0 <= p < j && p < g && #[trigger] frames[p].kids@.contains(g as u32) && under(frames, id, p)
}

/// Once the walk has passed `g`, whether it was reached is whether it
/// stands under `id`.
proof fn lemma_reached_before_settles(frames: Seq<Frame>, id: int, g: int)
    requires
        0 <= g < frames.len(),
    ensures
        reached_before(frames, id, g, g) <==> under(frames, id, g),
{
}

/// Past `g`, the walk reaches nothing more of it.
proof fn lemma_reached_before_late(frames: Seq<Frame>, id: int, g: int, j: int)
    requires
        g <= j,
    ensures
        reached_before(frames, id, g, j) <==> reached_before(frames, id, g, g),
{
    if reached_before(frames, id, g, j) && g != id {
        let p = choose|p: int|
            0 <= p < j && p < g && #[trigger] frames[p].kids@.contains(g as u32) && under(frames, id, p);
        assert(0 <= p < g);
    }
}

/// One step of the walk: frame `j`'s kids join the reached set exactly
/// when `j` itself stands under `id`.
proof fn lemma_reached_before_step(frames: Seq<Frame>, id: int, g: int, j: int)
    requires
        0 <= j,
        frames_nest(frames),
        0 <= j < frames.len(),
        0 <= g < frames.len(),
        frames.len() <= u32::MAX,
    ensures
        reached_before(frames, id, g, j + 1) <==> (reached_before(frames, id, g, j) || (under(frames, id, j)
            && frames[j].kids@.contains(g as u32))),
{
    if frames[j].kids@.contains(g as u32) && under(frames, id, j) {
        let q = choose|q: int| 0 <= q < frames[j].kids@.len() && frames[j].kids@[q] == g as u32;
        assert(j < frames[j].kids@[q]);
        assert(j < g);
    }
    if reached_before(frames, id, g, j + 1) && g != id {
        let p = choose|p: int|
            0 <= p < j + 1 && p < g && #[trigger] frames[p].kids@.contains(g as u32) && under(frames, id, p);
        if p < j {
            assert(reached_before(frames, id, g, j));
        }
    }
}

/// Flags every kid in the list.
fn mark_kids(flags: &mut Vec<bool>, kids: &Vec<u32>)
    requires
        old(flags)@.len() <= u32::MAX,
        forall|q: int| 0 <= q < kids@.len() ==> (#[trigger] kids@[q] as int) < old(flags)@.len(),
    ensures
        final(flags)@.len() == old(flags)@.len(),
        forall|g: int|
            0 <= g < old(flags)@.len() ==> (#[trigger] final(flags)@[g] <==> (old(flags)@[g] || kids@.contains(
                g as u32,
            ))),
{
    let ghost start = flags@;
    let mut k: usize = 0;
    while k < kids.len()
        invariant
            k <= kids@.len(),
            flags@.len() == start.len(),
            start.len() <= u32::MAX,
            forall|q: int| 0 <= q < kids@.len() ==> (#[trigger] kids@[q] as int) < start.len(),
            forall|g: int|
                0 <= g < start.len() ==> (#[trigger] flags@[g] <==> (start[g] || kids@.take(k as int).contains(
                    g as u32,
                ))),
        decreases kids.len() - k,
    {
        let kid = kids[k];
        flags.set(kid as usize, true);
        proof {
            assert forall|g: int|
                0 <= g < start.len() implies (#[trigger] flags@[g] <==> (start[g] || kids@.take(k + 1).contains(
                    g as u32,
                ))) by {
                let t1 = kids@.take(k + 1);
                let t0 = kids@.take(k as int);
                assert(t1 =~= t0.push(kid));
                if t1.contains(g as u32) && g as u32 != kid {
                    let q = choose|q: int| 0 <= q < t1.len() && t1[q] == g as u32;
                    assert(t0[q] == g as u32);
                }
                if t0.contains(g as u32) {
                    let q = choose|q: int| 0 <= q < t0.len() && t0[q] == g as u32;
                    assert(t1[q] == g as u32);
                }
                if g == kid as int {
                    assert(t1[k as int] == kid);
                }
            }
        }
        k = k + 1;
    }
    assert(kids@.take(kids@.len() as int) =~= kids@);
}

/// Adds everything one frame holds to a set: its own shelf and its
/// containers' methods.
fn add_frame(r: &mut HashSet<u32>, frame: &Frame, owners: &Vec<Container>)
    ensures
        forall|m: u32| #[trigger] final(r)@.contains(m) <==> (old(r)@.contains(m) || holds_in(*frame, owners@, m)),
{
    let ghost start = r@;
    add_all(r, &frame.marks);
    let mut q: usize = 0;
    while q < frame.owners.len()
        invariant
            q <= frame.owners@.len(),
            forall|m: u32|
                #[trigger] r@.contains(m) <==> (start.contains(m) || frame.marks@.contains(m) || exists|p: int|
                    0 <= p < q && owner_holds(owners@, #[trigger] frame.owners@[p] as int, m)),
        decreases frame.owners.len() - q,
    {
        let o = frame.owners[q];
        let ghost mid = r@;
        if (o as usize) < owners.len() {
            add_all(r, &owners[o as usize].marks);
        }
        proof {
            assert forall|m: u32|
                #[trigger] r@.contains(m) <==> (start.contains(m) || frame.marks@.contains(m) || exists|p: int|
                    0 <= p < q + 1 && owner_holds(owners@, #[trigger] frame.owners@[p] as int, m)) by {
                if exists|p: int| 0 <= p < q + 1 && owner_holds(owners@, #[trigger] frame.owners@[p] as int, m) {
                    let p = choose|p: int| 0 <= p < q + 1 && owner_holds(owners@, #[trigger] frame.owners@[p] as int, m);
                    if p < q {
                        assert(mid.contains(m));
                    } else {
                        assert(frame.owners@[p] == o);
                    }
                }
                if owner_holds(owners@, o as int, m) {
                    assert(frame.owners@[q as int] == o);
                }
            }
        }
        q = q + 1;
    }
}

/// Adds every id of a list to a set.
fn add_all(r: &mut HashSet<u32>, ids: &Vec<u32>)
    ensures
        forall|m: u32| #[trigger] final(r)@.contains(m) <==> (old(r)@.contains(m) || ids@.contains(m)),
{
    let ghost start = r@;
    let mut i: usize = 0;
    while i < ids.len()
        invariant
            i <= ids@.len(),
            forall|m: u32| #[trigger] r@.contains(m) <==> (start.contains(m) || ids@.take(i as int).contains(m)),
        decreases ids.len() - i,
    {
        let x = ids[i];
        r.insert(x);
        proof {
            let t1 = ids@.take(i + 1);
            let t0 = ids@.take(i as int);
            assert(t1 =~= t0.push(x));
            assert forall|m: u32| #[trigger] r@.contains(m) <==> (start.contains(m) || t1.contains(m)) by {
                if t1.contains(m) && m != x {
                    let q = choose|q: int| 0 <= q < t1.len() && t1[q] == m;
                    assert(t0[q] == m);
                }
                if t0.contains(m) {
                    let q = choose|q: int| 0 <= q < t0.len() && t0[q] == m;
                    assert(t1[q] == m);
                }
                if m == x {
                    assert(t1[i as int] == m);
                }
            }
        }
        i = i + 1;
    }
    assert(ids@.take(ids@.len() as int) =~= ids@);
}

} // verus!
