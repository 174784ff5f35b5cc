//! What the chart asks of one built function model: a mark or a box by the
//! name a URL gives it, the frames over a box, what a box holds, what a fold
//! hides, and how far a rewrite reaches.

use std::collections::{HashMap, HashSet};

use vstd::prelude::*;

use crate::fn_model::{Call, Container, FnMark, FnModel, Frame, Spot};
use crate::fn_reading::FoldView;
use crate::paths::views;
use crate::reach::{reach_set, reached};

verus! {

broadcast use vstd::std_specs::hash::group_hash_axioms;

/// The frame a frame sits inside, where it is one.
pub open spec fn parent_of(frames: Seq<Frame>, f: int) -> Option<u32> {
    if 0 <= f < frames.len() { frames[f].parent } else { None }
}

/// The walk up the frames: from `at`, each frame's parent in turn, until a
/// frame has none or the walk comes back to one it has already passed.
pub open spec fn walk_up(frames: Seq<Frame>, at: Option<u32>, out: Seq<u32>, fuel: nat) -> Seq<u32>
    decreases fuel,
{
    if fuel == 0 {
        out
    } else {
        match at {
            None => out,
            Some(up) => if out.contains(up) {
                out
            } else {
                walk_up(frames, parent_of(frames, up as int), out.push(up), (fuel - 1) as nat)
            },
        }
    }
}

/// Every frame `frame` stands inside, outward.
pub open spec fn spec_over(frames: Seq<Frame>, frame: int) -> Seq<u32> {
    walk_up(frames, parent_of(frames, frame), Seq::empty(), frames.len() + 1)
}

/// The last mark before `n` that carries id `k`, or -1.
pub open spec fn last_with_id(marks: Seq<FnMark>, k: u32, n: int) -> int
    decreases n,
{
    if n <= 0 {
        -1
    } else if marks[n - 1].id == k {
        n - 1
    } else {
        last_with_id(marks, k, n - 1)
    }
}

proof fn lemma_last_with_id(marks: Seq<FnMark>, k: u32, n: int)
    requires
        0 <= n,
    ensures
        last_with_id(marks, k, n + 1) == (if marks[n].id == k { n } else { last_with_id(marks, k, n) }),
        last_with_id(marks, k, n) < n,
    decreases n,
{
    if n > 0 {
        lemma_last_with_id(marks, k, n - 1);
    }
}

/// Frame `f` is `id` or nested inside it, however deep.
pub open spec fn under(frames: Seq<Frame>, id: int, f: int) -> bool
    decreases f,
{
    0 <= f < frames.len() && (f == id || exists|p: int|
        0 <= p < f && #[trigger] frames[p].kids@.contains(f as u32) && under(frames, id, p))
}

/// Every kid of a frame is a frame written after it.
pub open spec fn frames_nest(frames: Seq<Frame>) -> bool {
    forall|i: int, k: int|
        0 <= i < frames.len() && 0 <= k < frames[i].kids@.len() ==> i < #[trigger] frames[i].kids@[k]
            < frames.len()
}

/// Container `o` holds mark `m`.
pub open spec fn owner_holds(owners: Seq<Container>, o: int, m: u32) -> bool {
    0 <= o < owners.len() && owners[o].marks@.contains(m)
}

/// A frame holds mark `m` on its own shelf or in one of its containers.
pub open spec fn holds_in(frame: Frame, owners: Seq<Container>, m: u32) -> bool {
    frame.marks@.contains(m) || exists|q: int|
        0 <= q < frame.owners@.len() && owner_holds(owners, #[trigger] frame.owners@[q] as int, m)
}

/// Frame `f` holds mark `m` on its own shelf or in one of its containers.
pub open spec fn frame_holds(frames: Seq<Frame>, owners: Seq<Container>, f: int, m: u32) -> bool {
    holds_in(frames[f], owners, m)
}

/// The first box a fold stands in for `spot`, where one hides it.
pub open spec fn first_pack(packs: Seq<(Spot, Spot)>, spot: Spot) -> Option<Spot>
    decreases packs.len(),
{
    if packs.len() == 0 {
        None
    } else if packs[0].0 == spot {
        Some(packs[0].1)
    } else {
        first_pack(packs.drop_first(), spot)
    }
}

impl FnModel {
    /// Whether mark `i` is written at this file and label.
    pub open spec fn mark_named(&self, i: int, path: Seq<char>, label: Seq<char>) -> bool {
        self.marks@[i].head.path@ == path && self.marks@[i].head.label@ == label
    }

    pub open spec fn owner_named(&self, i: int, path: Seq<char>, label: Seq<char>) -> bool {
        self.owners@[i].path@ == path && self.owners@[i].label@ == label
    }

    pub open spec fn frame_keyed(&self, i: int, key: Seq<Seq<char>>) -> bool {
        seq![self.frames@[i].krate@] + views(self.frames@[i].module@) == key
    }

    /// The frame one box stands in.
    pub open spec fn spec_frame_of(&self, spot: Spot) -> Option<u32> {
        match spot {
            Spot::Frame(id) => Some(id),
            Spot::Owner(id) => if id < self.owners@.len() {
                Some(self.owners@[id as int].frame)
            } else {
                None
            },
            Spot::Mark(id) => if !self.home@.contains_key(id) {
                None
            } else {
                match self.home@[id] {
                    Spot::Frame(at) => Some(at),
                    Spot::Owner(at) => if at < self.owners@.len() {
                        Some(self.owners@[at as int].frame)
                    } else {
                        None
                    },
                    Spot::Mark(_) => None,
                }
            },
        }
    }

    /// Every mark one box holds.
    pub open spec fn spec_inside(&self, spot: Spot) -> Set<u32> {
        match spot {
            Spot::Mark(id) => set![id],
            Spot::Owner(id) => Set::new(|m: u32| owner_holds(self.owners@, id as int, m)),
            Spot::Frame(id) => Set::new(
                |m: u32|
                    exists|f: int|
                        #[trigger] under(self.frames@, id as int, f) && frame_holds(
                            self.frames@,
                            self.owners@,
                            f,
                            m,
                        ),
            ),
        }
    }

    /// The box that stands for `spot` on the paper.
    pub open spec fn spec_shown(&self, spot: Spot) -> Spot {
        match first_pack(self.packs@, spot) {
            Some(s) => s,
            None => spot,
        }
    }

    /// The folds on the way down a chain of frames, outermost first.
    pub open spec fn frame_folds(&self, chain: Seq<u32>) -> Seq<FoldView>
        decreases chain.len(),
    {
        if chain.len() == 0 {
            Seq::empty()
        } else {
            let id = chain.last();
            let rest = self.frame_folds(chain.drop_last());
            if self.folded@.contains(Spot::Frame(id)) && id < self.frames@.len() {
                rest.push(
                    FoldView::Module(
                        seq![self.frames@[id as int].krate@] + views(self.frames@[id as int].module@),
                    ),
                )
            } else {
                rest
            }
        }
    }

    /// The container fold a mark hides behind, where it has one.
    pub open spec fn owner_fold_of(&self, spot: Spot) -> Seq<FoldView> {
        match spot {
            Spot::Mark(id) => if self.home@.contains_key(id) && self.home@[id] is Owner {
                let at = self.home@[id]->Owner_0;
                if self.folded@.contains(Spot::Owner(at)) && at < self.owners@.len() {
                    seq![FoldView::Owner(self.owners@[at as int].path@, self.owners@[at as int].label@)]
                } else {
                    Seq::empty()
                }
            } else {
                Seq::empty()
            },
            _ => Seq::empty(),
        }
    }

    /// The folds standing between the paper and one box, outermost first.
    pub open spec fn spec_reveal(&self, spot: Spot) -> Seq<FoldView> {
        if self.folded@.len() == 0 {
            Seq::empty()
        } else {
            match spot {
                Spot::Frame(id) => self.frame_folds(spec_over(self.frames@, id as int).reverse()),
                _ => match self.spec_frame_of(spot) {
                    None => Seq::empty(),
                    Some(f) => self.frame_folds(spec_over(self.frames@, f as int).reverse().push(f))
                        + self.owner_fold_of(spot),
                },
            }
        }
    }

    /// Every mark one wire away from a set, in either direction.
    pub open spec fn spec_one_hop(&self, inside: Set<u32>) -> Set<u32> {
        Set::new(
            |m: u32|
                exists|i: int|
                    0 <= i < self.calls@.len() && (
                    (inside.contains(self.calls@[i].def) && !inside.contains(self.calls@[i].user)
                        && m == self.calls@[i].user) || (!inside.contains(self.calls@[i].def)
                        && inside.contains(self.calls@[i].user) && m == self.calls@[i].def)),
        )
    }

    /// Every mark, by id; where two share an id, the later one.
    pub fn by_id(&self) -> (r: HashMap<u32, &FnMark>)
        ensures
            forall|k: u32| #[trigger] r@.contains_key(k) <==> last_with_id(self.marks@, k, self.marks@.len() as int) >= 0,
            forall|k: u32| #[trigger] r@.contains_key(k) ==> *r@[k] == self.marks@[last_with_id(self.marks@, k, self.marks@.len() as int)],
    {
        let mut r: HashMap<u32, &FnMark> = HashMap::new();
        let mut i: usize = 0;
        while i < self.marks.len()
            invariant
                i <= self.marks@.len(),
                forall|k: u32| #[trigger] r@.contains_key(k) <==> last_with_id(self.marks@, k, i as int) >= 0,
                forall|k: u32| #[trigger] r@.contains_key(k) ==> *r@[k] == self.marks@[last_with_id(self.marks@, k, i as int)],
            decreases self.marks.len() - i,
        {
            let m = &self.marks[i];
            r.insert(m.id, m);
            proof {
                assert forall|k: u32| #[trigger] r@.contains_key(k) <==> last_with_id(self.marks@, k, i + 1) >= 0 by {
                    lemma_last_with_id(self.marks@, k, i as int);
                }
                assert forall|k: u32| #[trigger] r@.contains_key(k) implies *r@[k] == self.marks@[last_with_id(self.marks@, k, i + 1)] by {
                    lemma_last_with_id(self.marks@, k, i as int);
                }
            }
            i = i + 1;
        }
        r
    }

    /// One mark by the (file, label) a URL names: the first so written.
    pub fn find(&self, path: &str, label: &str) -> (r: Option<&FnMark>)
        ensures
            match r {
                Some(m) => exists|i: int|
                    0 <= i < self.marks@.len() && *m == self.marks@[i] && self.mark_named(i, path@, label@)
                        && forall|j: int| 0 <= j < i ==> !self.mark_named(j, path@, label@),
                None => forall|i: int| 0 <= i < self.marks@.len() ==> !self.mark_named(i, path@, label@),
            },
    {
        let mut i: usize = 0;
        while i < self.marks.len()
            invariant
                i <= self.marks@.len(),
                forall|j: int| 0 <= j < i ==> !self.mark_named(j, path@, label@),
            decreases self.marks.len() - i,
        {
            let m = &self.marks[i];
            if same_text(m.head.path.as_str(), path) && same_text(m.head.label.as_str(), label) {
                return Some(m);
            }
            i = i + 1;
        }
        None
    }

    /// One owner container by the (file, label) its own URL names.
    pub fn owner_at(&self, path: &str, label: &str) -> (r: Option<&Container>)
        ensures
            match r {
                Some(o) => exists|i: int|
                    0 <= i < self.owners@.len() && *o == self.owners@[i] && self.owner_named(i, path@, label@)
                        && forall|j: int| 0 <= j < i ==> !self.owner_named(j, path@, label@),
                None => forall|i: int| 0 <= i < self.owners@.len() ==> !self.owner_named(i, path@, label@),
            },
    {
        let mut i: usize = 0;
        while i < self.owners.len()
            invariant
                i <= self.owners@.len(),
                forall|j: int| 0 <= j < i ==> !self.owner_named(j, path@, label@),
            decreases self.owners.len() - i,
        {
            let o = &self.owners[i];
            if same_text(o.path.as_str(), path) && same_text(o.label.as_str(), label) {
                return Some(o);
            }
            i = i + 1;
        }
        None
    }

    /// One frame by the key a URL carries: the crate, then the module path.
    pub fn frame_at(&self, key: &[String]) -> (r: Option<&Frame>)
        ensures
            match r {
                Some(f) => exists|i: int|
                    0 <= i < self.frames@.len() && *f == self.frames@[i] && self.frame_keyed(i, views(key@))
                        && forall|j: int| 0 <= j < i ==> !self.frame_keyed(j, views(key@)),
                None => forall|i: int| 0 <= i < self.frames@.len() ==> !self.frame_keyed(i, views(key@)),
            },
    {
        let mut i: usize = 0;
        while i < self.frames.len()
            invariant
                i <= self.frames@.len(),
                forall|j: int| 0 <= j < i ==> !self.frame_keyed(j, views(key@)),
            decreases self.frames.len() - i,
        {
            let f = &self.frames[i];
            if keyed(f, key) {
                return Some(f);
            }
            i = i + 1;
        }
        None
    }

    /// The module frame one box stands in.
    pub fn frame_of(&self, spot: Spot) -> (r: Option<u32>)
        ensures
            r == self.spec_frame_of(spot),
    {
        match spot {
            Spot::Frame(id) => Some(id),
            Spot::Owner(id) => {
                if (id as usize) < self.owners.len() {
                    Some(self.owners[id as usize].frame)
                } else {
                    None
                }
            },
            Spot::Mark(id) => match self.home.get(&id) {
                None => None,
                Some(Spot::Frame(at)) => Some(*at),
                Some(Spot::Owner(at)) => {
                    if (*at as usize) < self.owners.len() {
                        Some(self.owners[*at as usize].frame)
                    } else {
                        None
                    }
                },
                Some(Spot::Mark(_)) => None,
            },
        }
    }

    /// Every mark a rewrite of `from` could reach, walking callers outward
    /// over the whole call graph: the transitive callers, and what calls a
    /// clause a method answers.
    pub fn upstream(&self, from: u32) -> (r: HashSet<u32>)
        ensures
            forall|y: u32| r@.contains(y) <==> reached(self.all_callers@, from, y),
    {
        reach_set(&self.all_callers, from)
    }

    /// Every mark one drawn call away from a set, in either direction: what
    /// a boundary reading reads a step behind itself.
    pub fn one_hop(&self, inside: &HashSet<u32>) -> (r: HashSet<u32>)
        ensures
            r@ == self.spec_one_hop(inside@),
    {
        let mut r: HashSet<u32> = HashSet::new();
        let mut i: usize = 0;
        while i < self.calls.len()
            invariant
                i <= self.calls@.len(),
                forall|m: u32|
                    r@.contains(m) <==> exists|k: int|
                        0 <= k < i && (
                        (inside@.contains(self.calls@[k].def) && !inside@.contains(self.calls@[k].user)
                            && m == self.calls@[k].user) || (!inside@.contains(self.calls@[k].def)
                            && inside@.contains(self.calls@[k].user) && m == self.calls@[k].def)),
            decreases self.calls.len() - i,
        {
            let c: Call = self.calls[i];
            let a = inside.contains(&c.def);
            let b = inside.contains(&c.user);
            if a && !b {
                r.insert(c.user);
            } else if !a && b {
                r.insert(c.def);
            }
            proof {
                assert forall|m: u32|
                    r@.contains(m) <==> exists|k: int|
                        0 <= k < i + 1 && (
                        (inside@.contains(self.calls@[k].def) && !inside@.contains(self.calls@[k].user)
                            && m == self.calls@[k].user) || (!inside@.contains(self.calls@[k].def)
                            && inside@.contains(self.calls@[k].user) && m == self.calls@[k].def)) by {
                    assert(self.calls@[i as int] == c);
                }
            }
            i = i + 1;
        }
        assert(r@ =~= self.spec_one_hop(inside@));
        r
    }
}

/// Whether a frame carries this key: its crate, then its module path.
fn keyed(f: &Frame, key: &[String]) -> (b: bool)
    ensures
        b == (seq![f.krate@] + views(f.module@) == views(key@)),
{
    let ghost want = seq![f.krate@] + views(f.module@);
    if key.len() == 0 || key.len() - 1 != f.module.len() {
        assert(want.len() != views(key@).len());
        return false;
    }
    if !key[0].eq(&f.krate) {
        assert(want[0] != views(key@)[0]);
        return false;
    }
    let mut i: usize = 0;
    while i < f.module.len()
        invariant
            i <= f.module@.len(),
            key@.len() == f.module@.len() + 1,
            key@[0]@ == f.krate@,
            want == seq![f.krate@] + views(f.module@),
            forall|k: int| 0 <= k < i ==> #[trigger] f.module@[k]@ == key@[k + 1]@,
        decreases f.module.len() - i,
    {
        if !f.module[i].eq(&key[i + 1]) {
            assert(views(f.module@)[i as int] == f.module@[i as int]@);
            assert(want[i + 1] == views(f.module@)[i as int]);
            assert(views(key@)[i + 1] == key@[i + 1]@);
            return false;
        }
        i = i + 1;
    }
    assert(want =~= views(key@));
    true
}

/// Whether two strings spell the same text.
pub fn same_text(a: &str, b: &str) -> (r: bool)
    ensures
        r == (a@ == b@),
{
    a.to_owned().eq(&b.to_owned())
}

/// Whether an id is among a list of ids.
pub fn id_in(v: &Vec<u32>, x: u32) -> (b: bool)
    ensures
        b == v@.contains(x),
{
    let mut i: usize = 0;
    while i < v.len()
        invariant
            i <= v@.len(),
            forall|k: int| 0 <= k < i ==> v@[k] != x,
        decreases v.len() - i,
    {
        if v[i] == x {
            return true;
        }
        i = i + 1;
    }
    false
}

/// Whether a box is among a list of boxes.
pub fn spot_in(v: &Vec<Spot>, s: Spot) -> (b: bool)
    ensures
        b == v@.contains(s),
{
    let mut i: usize = 0;
    while i < v.len()
        invariant
            i <= v@.len(),
            forall|k: int| 0 <= k < i ==> v@[k] != s,
        decreases v.len() - i,
    {
        if v[i] == s {
            return true;
        }
        i = i + 1;
    }
    false
}

} // verus!
