//! The exclusion set, the budget selector, and the elision pass.
use vstd::prelude::*;

use crate::event::{dup_event, out_views, views, Error, Event, OutEvent};
use crate::model::{
    a_done, a_run, beats, best, chosen, ends_of, left_total, lemma_a_run_bounds,
    lemma_a_run_fail_sticky, lemma_best_in_range, lemma_bounds_of_concat, lemma_bounds_of_empty,
    lemma_bounds_of_push, lemma_sum_len_concat, lemma_sum_len_nonneg, lemma_sum_len_push,
    lemma_sum_len_remove, sel_pops, starts_of, sum_len, Rec,
};
use super::count::{recs_view, Metrics, Object};
use super::Opts;

verus! {

/// Whether a boundary marker opens or closes an elided range.
#[derive(Clone, Copy, Debug, PartialEq, Eq, Structural)]
pub enum Bound {
    Start,
    End,
}

/// One boundary marker: a stream position and which side of an elided range
/// it marks.
#[derive(Clone, Copy, Debug)]
pub struct Exclude {
    pub index: usize,
    pub bound: Bound,
}

/// The set of elided ranges, kept as boundary markers over stream
/// positions.
#[derive(Debug)]
pub struct ExcludeSet {
    pub indices: Vec<Exclude>,
}

impl ExcludeSet {
    /// The positions at which an elided range starts.
    pub open spec fn starts(self) -> Set<int> {
        Set::new(
            |p: int|
                exists|i: int|
                    0 <= i < self.indices@.len() && (#[trigger] self.indices@[i]).bound
                        == Bound::Start && self.indices@[i].index == p,
        )
    }

    /// The positions at which an elided range ends.
    pub open spec fn ends(self) -> Set<int> {
        Set::new(
            |p: int|
                exists|i: int|
                    0 <= i < self.indices@.len() && (#[trigger] self.indices@[i]).bound
                        == Bound::End && self.indices@[i].index == p,
        )
    }

    pub fn new() -> (r: ExcludeSet)
        ensures
            r.starts() == Set::<int>::empty(),
            r.ends() == Set::<int>::empty(),
    {
        let r = ExcludeSet { indices: Vec::new() };
        proof {
            assert(r.starts() =~= Set::<int>::empty());
            assert(r.ends() =~= Set::<int>::empty());
        }
        r
    }

    /// Adds the range `[start, end]` (positions of a node's begin and end
    /// events) to the set.
    pub fn insert(&mut self, start: usize, end: usize)
        ensures
            final(self).starts() == old(self).starts().insert(start as int),
            final(self).ends() == old(self).ends().insert(end as int),
    {
        self.indices.push(Exclude { index: start, bound: Bound::Start });
        self.indices.push(Exclude { index: end, bound: Bound::End });
        proof {
            let n = old(self).indices@.len() as int;
            assert(self.indices@[n] == Exclude { index: start, bound: Bound::Start });
            assert(self.indices@[n + 1] == Exclude { index: end, bound: Bound::End });
            assert(forall|i: int|
                0 <= i < n ==> self.indices@[i] == #[trigger] old(self).indices@[i]);
            assert forall|p: int| #[trigger] self.starts().contains(p) implies old(
                self,
            ).starts().insert(start as int).contains(p) by {
                let i = choose|i: int|
                    0 <= i < self.indices@.len() && (#[trigger] self.indices@[i]).bound
                        == Bound::Start && self.indices@[i].index == p;
                if i < n {
                    assert(old(self).indices@[i].bound == Bound::Start
                        && old(self).indices@[i].index == p);
                }
            }
            assert forall|p: int| old(self).starts().insert(start as int).contains(p) implies #[
                trigger
            ] self.starts().contains(p) by {
                if p == start as int {
                    assert(self.indices@[n].bound == Bound::Start && self.indices@[n].index == p);
                } else {
                    let i = choose|i: int|
                        0 <= i < old(self).indices@.len() && (#[trigger] old(
                            self,
                        ).indices@[i]).bound == Bound::Start && old(self).indices@[i].index == p;
                    assert(self.indices@[i].bound == Bound::Start && self.indices@[i].index == p);
                }
            }
            assert(self.starts() =~= old(self).starts().insert(start as int));
            assert forall|p: int| #[trigger] self.ends().contains(p) implies old(
                self,
            ).ends().insert(end as int).contains(p) by {
                let i = choose|i: int|
                    0 <= i < self.indices@.len() && (#[trigger] self.indices@[i]).bound
                        == Bound::End && self.indices@[i].index == p;
                if i < n {
                    assert(old(self).indices@[i].bound == Bound::End
                        && old(self).indices@[i].index == p);
                }
            }
            assert forall|p: int| old(self).ends().insert(end as int).contains(p) implies #[
                trigger
            ] self.ends().contains(p) by {
                if p == end as int {
                    assert(self.indices@[n + 1].bound == Bound::End
                        && self.indices@[n + 1].index == p);
                } else {
                    let i = choose|i: int|
                        0 <= i < old(self).indices@.len() && (#[trigger] old(
                            self,
                        ).indices@[i]).bound == Bound::End && old(self).indices@[i].index == p;
                    assert(self.indices@[i].bound == Bound::End && self.indices@[i].index == p);
                }
            }
            assert(self.ends() =~= old(self).ends().insert(end as int));
        }
    }

    /// Is `p` the start of an elided range?
    pub fn contains_start(&self, p: usize) -> (r: bool)
        ensures
            r == self.starts().contains(p as int),
    {
        let mut i: usize = 0;
        let mut found = false;
        while i < self.indices.len()
            invariant
                i <= self.indices@.len(),
                found == exists|j: int|
                    0 <= j < i && (#[trigger] self.indices@[j]).bound == Bound::Start
                        && self.indices@[j].index == p,
            decreases self.indices@.len() - i,
        {
            let e = self.indices[i];
            if e.bound == Bound::Start && e.index == p {
                found = true;
            }
            i = i + 1;
        }
        found
    }

    /// Is `p` the end of an elided range?
    pub fn contains_end(&self, p: usize) -> (r: bool)
        ensures
            r == self.ends().contains(p as int),
    {
        let mut i: usize = 0;
        let mut found = false;
        while i < self.indices.len()
            invariant
                i <= self.indices@.len(),
                found == exists|j: int|
                    0 <= j < i && (#[trigger] self.indices@[j]).bound == Bound::End
                        && self.indices@[j].index == p,
            decreases self.indices@.len() - i,
        {
            let e = self.indices[i];
            if e.bound == Bound::End && e.index == p {
                found = true;
            }
            i = i + 1;
        }
        found
    }
}

/// Eviction priority between two records (see [`beats`]).
fn beats_exec(a: &Object, b: &Object) -> (r: bool)
    ensures
        r == beats(a@, b@),
{
    a.depth > b.depth || (a.depth == b.depth && (a.length > b.length || (a.length == b.length
        && a.start < b.start)))
}

/// The index of the highest-priority record of a non-empty queue.
fn best_index(q: &Vec<Object>) -> (r: usize)
    requires
        q@.len() > 0,
    ensures
        r < q@.len(),
        r as int == best(recs_view(q@)),
{
    let mut bi: usize = 0;
    let mut j: usize = 1;
    proof {
        assert(recs_view(q@).subrange(0, 1).len() == 1);
    }
    while j < q.len()
        invariant
            1 <= j <= q@.len(),
            bi < j,
            bi as int == best(recs_view(q@).subrange(0, j as int)),
        decreases q@.len() - j,
    {
        proof {
            let qv = recs_view(q@);
            assert(qv.subrange(0, j as int + 1).drop_last() =~= qv.subrange(0, j as int));
            assert(qv.subrange(0, j as int + 1).last() == qv[j as int]);
            lemma_best_in_range(qv.subrange(0, j as int));
            assert(qv.subrange(0, j as int)[bi as int] == qv[bi as int]);
        }
        if beats_exec(&q[j], &q[bi]) {
            bi = j;
        }
        j = j + 1;
    }
    proof {
        assert(recs_view(q@).subrange(0, q@.len() as int) =~= recs_view(q@));
    }
    bi
}

/// The budget selector: elides every node beyond the depth limit, then
/// evicts highest-priority nodes until the projected total fits the line
/// limit or nothing evictable is left.  Returns the exclusion set and the
/// projected line count of the elided rendering.
pub fn select(opts: Opts, m: Metrics) -> (r: (ExcludeSet, usize))
    requires
        sum_len(recs_view(m.exceeded@)) + sum_len(recs_view(m.objects@)) < m.length,
    ensures
        ({
            let exc = recs_view(m.exceeded@);
            let q = recs_view(m.objects@);
            let ch = chosen(exc, q, m.length as int, opts.max_lines as int);
            &&& r.0.starts() == starts_of(ch)
            &&& r.0.ends() == ends_of(ch)
            &&& r.1 as int == left_total(exc, q, m.length as int, opts.max_lines as int)
        }),
{
    let ghost exc = recs_view(m.exceeded@);
    let ghost q0 = recs_view(m.objects@);
    let ghost t0 = m.length as int;
    let mut ex = ExcludeSet::new();
    let mut total = m.length;
    let mut i: usize = 0;
    proof {
        lemma_sum_len_nonneg(exc);
        lemma_sum_len_nonneg(q0);
        assert(exc.subrange(0, 0) =~= Seq::<Rec>::empty());
        lemma_bounds_of_empty();
        assert(starts_of(exc.subrange(0, 0)) =~= Set::<int>::empty());
        assert(ends_of(exc.subrange(0, 0)) =~= Set::<int>::empty());
        assert(sum_len(exc.subrange(0, 0)) == 0);
    }
    while i < m.exceeded.len()
        invariant
            i <= m.exceeded@.len(),
            exc == recs_view(m.exceeded@),
            q0 == recs_view(m.objects@),
            t0 == m.length as int,
            sum_len(exc) + sum_len(q0) < t0,
            total as int == t0 - sum_len(exc.subrange(0, i as int)),
            ex.starts() == starts_of(exc.subrange(0, i as int)),
            ex.ends() == ends_of(exc.subrange(0, i as int)),
        decreases m.exceeded@.len() - i,
    {
        proof {
            assert(exc.subrange(0, i as int + 1).drop_last() =~= exc.subrange(0, i as int));
            assert(exc.subrange(0, i as int + 1) =~= exc.subrange(0, i as int).push(
                exc[i as int],
            ));
            lemma_sum_len_push(exc.subrange(0, i as int), exc[i as int]);
            lemma_bounds_of_push(exc.subrange(0, i as int), exc[i as int]);
            assert(exc =~= exc.subrange(0, i as int + 1) + exc.subrange(
                i as int + 1,
                exc.len() as int,
            ));
            lemma_sum_len_concat(
                exc.subrange(0, i as int + 1),
                exc.subrange(i as int + 1, exc.len() as int),
            );
            lemma_sum_len_nonneg(exc.subrange(i as int + 1, exc.len() as int));
            lemma_sum_len_nonneg(q0);
            assert(exc[i as int] == m.exceeded@[i as int]@);
        }
        let rec = m.exceeded[i];
        ex.insert(rec.start, rec.end);
        total = total - rec.length;
        i = i + 1;
    }
    proof {
        assert(exc.subrange(0, m.exceeded@.len() as int) =~= exc);
    }
    if opts.max_lines == 0 {
        return (ex, total);
    }
    let limit = opts.max_lines;
    let ghost t1 = t0 - sum_len(exc);
    let mut queue = m.objects;
    let ghost mut popped: Seq<Rec> = Seq::empty();
    proof {
        assert(popped + sel_pops(recs_view(queue@), total as int, limit as int) =~= sel_pops(
            q0,
            t1,
            limit as int,
        ));
        lemma_bounds_of_empty();
        assert(starts_of(exc).union(starts_of(popped)) =~= starts_of(exc));
        assert(ends_of(exc).union(ends_of(popped)) =~= ends_of(exc));
        assert(sum_len(popped) == 0);
    }
    while total > limit && queue.len() > 0
        invariant
            limit == opts.max_lines,
            limit > 0,
            t1 == t0 - sum_len(exc),
            sum_len(recs_view(queue@)) <= total as int - 1,
            sel_pops(q0, t1, limit as int) == popped + sel_pops(
                recs_view(queue@),
                total as int,
                limit as int,
            ),
            total as int == t1 - sum_len(popped),
            ex.starts() == starts_of(exc).union(starts_of(popped)),
            ex.ends() == ends_of(exc).union(ends_of(popped)),
        decreases queue.len(),
    {
        let ghost qv = recs_view(queue@);
        proof {
            lemma_best_in_range(qv);
        }
        let bi = best_index(&queue);
        let rec = queue.remove(bi);
        proof {
            assert(recs_view(queue@) =~= qv.remove(bi as int));
            lemma_sum_len_remove(qv, bi as int);
            lemma_sum_len_nonneg(recs_view(queue@));
            assert(sel_pops(qv, total as int, limit as int) == seq![qv[bi as int]] + sel_pops(
                qv.remove(bi as int),
                total as int - qv[bi as int].len,
                limit as int,
            ));
            assert(qv[bi as int] == rec@);
            assert(popped + (seq![rec@] + sel_pops(
                qv.remove(bi as int),
                total as int - rec@.len,
                limit as int,
            )) =~= popped.push(rec@) + sel_pops(
                qv.remove(bi as int),
                total as int - rec@.len,
                limit as int,
            ));
            lemma_sum_len_push(popped, rec@);
            lemma_bounds_of_push(popped, rec@);
            assert(starts_of(exc).union(starts_of(popped)).insert(rec.start as int) =~= starts_of(
                exc,
            ).union(starts_of(popped.push(rec@))));
            assert(ends_of(exc).union(ends_of(popped)).insert(rec.end as int) =~= ends_of(
                exc,
            ).union(ends_of(popped.push(rec@))));
        }
        ex.insert(rec.start, rec.end);
        total = total - rec.length;
        proof {
            popped = popped.push(rec@);
        }
    }
    proof {
        assert(sel_pops(recs_view(queue@), total as int, limit as int) == Seq::<Rec>::empty());
        assert(popped + Seq::<Rec>::empty() =~= popped);
        lemma_bounds_of_concat(exc, popped);
        lemma_sum_len_concat(exc, popped);
        assert(chosen(exc, q0, t0, limit as int) == exc + popped);
    }
    (ex, total)
}

/// The elision pass: replays the event stream against the exclusion set.
/// Outside every elided range events are forwarded unchanged; at the start
/// of an elided range a single placeholder is produced instead, and
/// everything up to and including the matching end boundary is suppressed.
pub fn apply_excludes(events: &Vec<Event>, ex: &ExcludeSet) -> (r: Result<Vec<OutEvent>, Error>)
    requires
        events@.len() < usize::MAX,
    ensures
        ({
            let run = a_run(ex.starts(), ex.ends(), views(events@));
            match r {
                Ok(out) => a_done(run) && out_views(out@) == run.out,
                Err(e) => e == Error::InternalInconsistency && !a_done(run),
            }
        }),
{
    let ghost sv = views(events@);
    let ghost starts = ex.starts();
    let ghost ends = ex.ends();
    let mut out: Vec<OutEvent> = Vec::new();
    let mut pos: usize = 0;
    let mut xd: usize = 0;
    let mut i: usize = 0;
    proof {
        assert(sv.subrange(0, 0) =~= Seq::<crate::event::EvV>::empty());
        assert(out_views(out@) =~= Seq::<crate::event::OutEvV>::empty());
    }
    while i < events.len()
        invariant
            i <= events@.len(),
            events@.len() < usize::MAX,
            sv == views(events@),
            starts == ex.starts(),
            ends == ex.ends(),
            a_run(starts, ends, sv.subrange(0, i as int)) == (crate::model::AState {
                ok: true,
                pos: pos as nat,
                xd: xd as nat,
                out: out_views(out@),
            }),
        decreases events@.len() - i,
    {
        proof {
            lemma_a_run_bounds(starts, ends, sv.subrange(0, i as int));
            assert(sv.subrange(0, i as int + 1).drop_last() =~= sv.subrange(0, i as int));
            assert(sv.subrange(0, i as int + 1).last() == sv[i as int]);
        }
        let ev = &events[i];
        let structural = match ev {
            Event::BeginArray | Event::BeginObject | Event::EndArray | Event::EndObject => true,
            Event::Key(_) | Event::Scalar(_) => false,
        };
        if structural {
            if xd == 0 {
                if ex.contains_start(pos) {
                    out.push(OutEvent::Placeholder);
                    xd = 1;
                } else if ex.contains_end(pos) {
                    proof {
                        assert(!a_run(starts, ends, sv.subrange(0, i as int + 1)).ok);
                        lemma_a_run_fail_sticky(starts, ends, sv, i as int + 1);
                    }
                    return Err(Error::InternalInconsistency);
                } else {
                    out.push(OutEvent::Ev(dup_event(ev)));
                }
            } else {
                if ex.contains_start(pos) {
                    xd = xd + 1;
                } else if ex.contains_end(pos) {
                    xd = xd - 1;
                }
            }
            pos = pos + 1;
        } else {
            if xd == 0 {
                out.push(OutEvent::Ev(dup_event(ev)));
            }
        }
        proof {
            assert(out_views(out@) =~= a_run(starts, ends, sv.subrange(0, i as int + 1)).out);
        }
        i = i + 1;
    }
    proof {
        assert(sv.subrange(0, events@.len() as int) =~= sv);
    }
    if xd > 0 {
        return Err(Error::InternalInconsistency);
    }
    Ok(out)
}

} // verus!
