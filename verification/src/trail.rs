//! The review trail of the dependency chart, kept in step with the browser
//! history: every selection is a step, back retraces the review and forward
//! replays it. A step is the focused crate's name, or none for the whole
//! chart.

use vstd::prelude::*;

use crate::data_model::opt_view;
use crate::fn_query::same_text;

verus! {

/// The recorded steps and where in them the current route sits.
#[derive(Clone, Debug)]
pub struct Trail {
    pub steps: Vec<Option<String>>,
    pub at: usize,
}

/// The steps as text.
pub open spec fn steps_view(steps: Seq<Option<String>>) -> Seq<Option<Seq<char>>> {
    steps.map_values(|o: Option<String>| opt_view(o))
}

/// The steps a route change leaves: the same, or a new step after the
/// current one with everything that was ahead of it dropped.
pub open spec fn noted_steps(steps: Seq<Option<Seq<char>>>, at: int, step: Option<Seq<char>>) -> Seq<Option<Seq<char>>> {
    if steps.len() == 0 {
        seq![step]
    } else if (0 <= at < steps.len() && steps[at] == step) || (0 < at && at - 1 < steps.len() && steps[at - 1] == step) || (at + 1
        < steps.len() && steps[at + 1] == step) {
        steps
    } else {
        steps.take(if at + 1 <= steps.len() { at + 1 } else { steps.len() as int }).push(step)
    }
}

/// Where the current route sits after a route change: on the step retraced
/// or replayed, else on the new last step.
pub open spec fn noted_at(steps: Seq<Option<Seq<char>>>, at: int, step: Option<Seq<char>>) -> int {
    if steps.len() == 0 {
        0
    } else if 0 <= at < steps.len() && steps[at] == step {
        at
    } else if 0 < at && at - 1 < steps.len() && steps[at - 1] == step {
        at - 1
    } else if at + 1 < steps.len() && steps[at + 1] == step {
        at + 1
    } else {
        noted_steps(steps, at, step).len() - 1
    }
}

/// Where the stretch since the last pass over the whole chart starts: just
/// after the last step with no focus, else at the first step.
pub open spec fn stretch_start(s: Seq<Option<Seq<char>>>) -> int
    decreases s.len(),
{
    if s.len() == 0 {
        0
    } else if s.last() is None {
        s.len() as int
    } else {
        stretch_start(s.drop_last())
    }
}

/// The names the steps focus, each once, in the order first visited.
pub open spec fn first_seen(s: Seq<Option<Seq<char>>>) -> Seq<Seq<char>>
    decreases s.len(),
{
    if s.len() == 0 {
        Seq::empty()
    } else {
        let r = first_seen(s.drop_last());
        match s.last() {
            Some(n) => if r.contains(n) {
                r
            } else {
                r.push(n)
            },
            None => r,
        }
    }
}

/// The crates the stretch of the trail up to the current route walked
/// through since it last passed the whole chart, each once, in visiting order.
pub open spec fn spec_walked(steps: Seq<Option<Seq<char>>>, at: int) -> Seq<Seq<char>> {
    if steps.len() == 0 {
        Seq::empty()
    } else {
        let upto = steps.take(if at < steps.len() - 1 { at + 1 } else { steps.len() as int });
        first_seen(upto.skip(stretch_start(upto)))
    }
}

fn same_step(a: &Option<String>, b: &Option<String>) -> (r: bool)
    ensures
        r == (opt_view(*a) == opt_view(*b)),
{
    match (a, b) {
        (Some(x), Some(y)) => same_text(x.as_str(), y.as_str()),
        (None, None) => true,
        _ => false,
    }
}

impl Trail {
    /// Record a route change, telling a back or forward retrace apart from a
    /// new step by comparing it with the recorded neighbours.
    pub fn note(&mut self, step: Option<String>)
        requires
            old(self).steps@.len() < usize::MAX,
        ensures
            steps_view(final(self).steps@) == noted_steps(steps_view(old(self).steps@), old(self).at as int, opt_view(step)),
            final(self).at as int == noted_at(steps_view(old(self).steps@), old(self).at as int, opt_view(step)),
    {
        let ghost v = steps_view(self.steps@);
        let ghost sv = opt_view(step);
        if self.steps.len() == 0 {
            self.steps.push(step);
            self.at = 0;
            proof {
                assert(steps_view(self.steps@) =~= seq![sv]);
            }
            return;
        }
        let at = self.at;
        if at < self.steps.len() && same_step(&self.steps[at], &step) {
            return;
        }
        if at > 0 && at - 1 < self.steps.len() && same_step(&self.steps[at - 1], &step) {
            self.at = at - 1;
            return;
        }
        if at < usize::MAX - 1 && at + 1 < self.steps.len() && same_step(&self.steps[at + 1], &step) {
            self.at = at + 1;
            return;
        }
        let keep = if at < self.steps.len() { at + 1 } else { self.steps.len() };
        self.steps.truncate(keep);
        self.steps.push(step);
        self.at = self.steps.len() - 1;
        proof {
            assert(steps_view(self.steps@) =~= v.take(keep as int).push(sv));
        }
    }

    /// The crate the current route focuses, if any.
    pub fn current_focus(&self) -> (r: Option<String>)
        ensures
            opt_view(r) == if (self.at as int) < self.steps@.len() {
                opt_view(self.steps@[self.at as int])
            } else {
                None
            },
    {
        if self.at < self.steps.len() {
            match &self.steps[self.at] {
                Some(s) => Some(s.clone()),
                None => None,
            }
        } else {
            None
        }
    }

    /// The crates this stretch of the trail walked through since it last
    /// passed the whole chart, in visiting order: the review's breadcrumb.
    pub fn walked(&self) -> (w: Vec<String>)
        ensures
            w@.map_values(|s: String| s@) == spec_walked(steps_view(self.steps@), self.at as int),
    {
        let ghost v = steps_view(self.steps@);
        let mut out: Vec<String> = Vec::new();
        if self.steps.len() == 0 {
            proof {
                assert(out@.map_values(|s: String| s@) =~= Seq::<Seq<char>>::empty());
            }
            return out;
        }
        let end = if self.at < self.steps.len() - 1 { self.at + 1 } else { self.steps.len() };
        let ghost upto = v.take(end as int);
        // Where the stretch starts.
        let mut start: usize = 0;
        let mut i: usize = 0;
        while i < end
            invariant
                i <= end,
                end <= self.steps@.len(),
                v == steps_view(self.steps@),
                upto == v.take(end as int),
                start <= i,
                start as int == stretch_start(upto.take(i as int)),
            decreases end - i,
        {
            proof {
                assert(upto.take(i + 1).drop_last() =~= upto.take(i as int));
            }
            if self.steps[i].is_none() {
                start = i + 1;
            }
            i = i + 1;
        }
        proof {
            assert(upto.take(end as int) =~= upto);
        }
        let ghost tail = upto.skip(start as int);
        let mut j: usize = start;
        while j < end
            invariant
                start <= j <= end,
                end <= self.steps@.len(),
                v == steps_view(self.steps@),
                upto == v.take(end as int),
                tail == upto.skip(start as int),
                start <= end,
                out@.map_values(|s: String| s@) == first_seen(tail.take(j - start)),
            decreases end - j,
        {
            let ghost before = out@.map_values(|s: String| s@);
            proof {
                assert(tail.take(j - start + 1).drop_last() =~= tail.take(j - start));
                assert(tail.take(j - start + 1).last() == v[j as int]);
            }
            match &self.steps[j] {
                Some(name) => {
                    let mut seen = false;
                    let mut k: usize = 0;
                    while k < out.len()
                        invariant
                            k <= out@.len(),
                            seen == exists|q: int| 0 <= q < k && (#[trigger] out@[q])@ == name@,
                        decreases out.len() - k,
                    {
                        if same_text(out[k].as_str(), name.as_str()) {
                            seen = true;
                        }
                        k = k + 1;
                    }
                    proof {
                        if seen {
                            let q = choose|q: int| 0 <= q < out@.len() && (#[trigger] out@[q])@ == name@;
                            assert(before[q] == name@);
                        }
                        if before.contains(name@) {
                            let q = choose|q: int| 0 <= q < before.len() && before[q] == name@;
                            assert(out@[q]@ == name@);
                        }
                    }
                    if !seen {
                        out.push(name.clone());
                        proof {
                            assert(out@.map_values(|s: String| s@) =~= before.push(name@));
                        }
                    }
                },
                None => {},
            }
            j = j + 1;
        }
        proof {
            assert(tail.take(end - start) =~= tail);
        }
        out
    }
}

} // verus!
