//! The library's general guarantees, stated and proved against the model
//! that the executable pipeline is verified to implement.
use vstd::prelude::*;

use crate::event::{EvV, OutEvV};
use crate::model::{
    a_run, at_limit, base_run, c_run, chosen, counts, left_total,
    lemma_sel_pops_exhausts, lemma_sel_pops_from_queue, lemma_sel_pops_monotone,
    lemma_sum_len_concat, lemma_sum_len_nonneg, sel_pops, starts_of, ends_of, sum_len, Rec,
};
use crate::ser::{render_cut, rendering, Opts};

verus! {

/// With no depth limit, the metrics pass finds no node beyond it.
pub proof fn lemma_c_run_no_exceeded(s: Seq<EvV>)
    ensures
        c_run(None, s).exceeded == Seq::<Rec>::empty(),
    decreases s.len(),
{
    if s.len() > 0 {
        lemma_c_run_no_exceeded(s.drop_last());
    }
}

/// With an empty exclusion set, the elision pass forwards every event.
pub proof fn lemma_a_run_no_excludes(s: Seq<EvV>)
    ensures
        a_run(Set::empty(), Set::empty(), s).ok,
        a_run(Set::empty(), Set::empty(), s).xd == 0,
        a_run(Set::empty(), Set::empty(), s).out == s.map_values(|e: EvV| OutEvV::Ev(e)),
    decreases s.len(),
{
    if s.len() == 0 {
        assert(s.map_values(|e: EvV| OutEvV::Ev(e)) =~= Seq::<OutEvV>::empty());
    } else {
        lemma_a_run_no_excludes(s.drop_last());
        assert(s.map_values(|e: EvV| OutEvV::Ev(e)) =~= s.drop_last().map_values(
            |e: EvV| OutEvV::Ev(e),
        ).push(OutEvV::Ev(s.last())));
    }
}

/// Properties of the records the metrics pass emits: the queue holds only
/// nodes within the depth limit that save at least two lines when elided
/// (their children plus the closing bracket), and `exceeded` holds exactly
/// nodes at the first depth beyond the limit.
pub proof fn lemma_c_run_rec_props(md: Option<int>, s: Seq<EvV>)
    ensures
        forall|k: int|
            0 <= k < c_run(md, s).queue.len() ==> (#[trigger] c_run(md, s).queue[k]).len > 1
                && !at_limit(md, c_run(md, s).queue[k].depth as int) && counts(
                md,
                c_run(md, s).queue[k].depth as int,
            ),
        forall|k: int|
            0 <= k < c_run(md, s).exceeded.len() ==> at_limit(
                md,
                (#[trigger] c_run(md, s).exceeded[k]).depth as int,
            ),
    decreases s.len(),
{
    if s.len() > 0 {
        lemma_c_run_rec_props(md, s.drop_last());
        let st = c_run(md, s.drop_last());
        let st1 = c_run(md, s);
        assert forall|k: int| 0 <= k < st1.queue.len() implies (#[trigger] st1.queue[k]).len > 1
            && !at_limit(md, st1.queue[k].depth as int) && counts(
            md,
            st1.queue[k].depth as int,
        ) by {
            if k < st.queue.len() {
                assert(st1.queue[k] == st.queue[k]);
            }
        }
        assert forall|k: int| 0 <= k < st1.exceeded.len() implies at_limit(
            md,
            (#[trigger] st1.exceeded[k]).depth as int,
        ) by {
            if k < st.exceeded.len() {
                assert(st1.exceeded[k] == st.exceeded[k]);
            }
        }
    }
}

/// Identity: with no limits set, nothing is chosen for elision and the
/// bounded rendering is exactly the unbounded base pretty-printing.
pub proof fn law_identity(opts: Opts, s: Seq<EvV>)
    requires
        opts.max_lines == 0,
        opts.max_depth is None,
    ensures
        chosen(
            c_run(opts.md(), s).exceeded,
            c_run(opts.md(), s).queue,
            c_run(opts.md(), s).total as int,
            opts.max_lines as int,
        ) == Seq::<Rec>::empty(),
        rendering(opts, s) == base_run(s),
{
    lemma_c_run_no_exceeded(s);
    let ch = chosen(
        c_run(opts.md(), s).exceeded,
        c_run(opts.md(), s).queue,
        c_run(opts.md(), s).total as int,
        opts.max_lines as int,
    );
    assert(ch == Seq::<Rec>::empty());
    assert(starts_of(ch) =~= Set::<int>::empty());
    assert(ends_of(ch) =~= Set::<int>::empty());
    lemma_a_run_no_excludes(s);
    assert(render_cut(opts, s).out == s.map_values(|e: EvV| OutEvV::Ev(e)));
}

/// Line bound: with a line limit set, the projected line count of the
/// elided rendering fits the limit, or every evictable node has been
/// elided.  Either way, eliding never adds lines.
pub proof fn law_line_bound(opts: Opts, s: Seq<EvV>)
    requires
        opts.max_lines > 0,
    ensures
        ({
            let st = c_run(opts.md(), s);
            let ch = chosen(st.exceeded, st.queue, st.total as int, opts.max_lines as int);
            &&& (left_total(st.exceeded, st.queue, st.total as int, opts.max_lines as int)
                <= opts.max_lines as int || ch.len() == st.exceeded.len() + st.queue.len())
            &&& left_total(st.exceeded, st.queue, st.total as int, opts.max_lines as int)
                <= st.total
        }),
{
    let st = c_run(opts.md(), s);
    let limit = opts.max_lines as int;
    let t1 = st.total - sum_len(st.exceeded);
    lemma_sel_pops_exhausts(st.queue, t1, limit);
    lemma_sum_len_concat(st.exceeded, sel_pops(st.queue, t1, limit));
    lemma_sum_len_nonneg(st.exceeded);
    lemma_sum_len_nonneg(sel_pops(st.queue, t1, limit));
}

/// Monotonicity in the line limit: tightening the limit (or setting one
/// where none was set) never increases the projected line count of the
/// elided rendering.
pub proof fn law_lines_monotone(md: Option<int>, s: Seq<EvV>, loose: int, tight: int)
    requires
        tight > 0,
        loose == 0 || tight <= loose,
    ensures
        ({
            let st = c_run(md, s);
            left_total(st.exceeded, st.queue, st.total as int, tight) <= left_total(
                st.exceeded,
                st.queue,
                st.total as int,
                loose,
            )
        }),
{
    let st = c_run(md, s);
    let t1 = st.total - sum_len(st.exceeded);
    lemma_sum_len_concat(st.exceeded, sel_pops(st.queue, t1, tight));
    if loose == 0 {
        lemma_sum_len_nonneg(sel_pops(st.queue, t1, tight));
    } else {
        lemma_sum_len_concat(st.exceeded, sel_pops(st.queue, t1, loose));
        lemma_sel_pops_monotone(st.queue, t1, tight, loose);
    }
}

/// An empty composite within the depth bound is never elided: everything
/// chosen either saves lines (is a non-empty composite) or lies at the
/// first depth beyond the depth limit.
pub proof fn law_empty_never_elided(opts: Opts, s: Seq<EvV>)
    ensures
        ({
            let st = c_run(opts.md(), s);
            let ch = chosen(st.exceeded, st.queue, st.total as int, opts.max_lines as int);
            forall|k: int|
                0 <= k < ch.len() ==> (#[trigger] ch[k]).len > 1 || at_limit(
                    opts.md(),
                    ch[k].depth as int,
                )
        }),
{
    let md = opts.md();
    let st = c_run(md, s);
    let ch = chosen(st.exceeded, st.queue, st.total as int, opts.max_lines as int);
    lemma_c_run_rec_props(md, s);
    if opts.max_lines != 0 {
        let t1 = st.total - sum_len(st.exceeded);
        let pops = sel_pops(st.queue, t1, opts.max_lines as int);
        lemma_sel_pops_from_queue(st.queue, t1, opts.max_lines as int);
        assert forall|k: int| 0 <= k < ch.len() implies (#[trigger] ch[k]).len > 1 || at_limit(
            md,
            ch[k].depth as int,
        ) by {
            if k < st.exceeded.len() {
                assert(ch[k] == st.exceeded[k]);
            } else {
                assert(ch[k] == pops[k - st.exceeded.len()]);
                assert(st.queue.contains(pops[k - st.exceeded.len()]));
                let j = choose|j: int|
                    0 <= j < st.queue.len() && st.queue[j] == pops[k - st.exceeded.len()];
                assert(st.queue[j].len > 1);
            }
        }
    }
}

} // verus!
