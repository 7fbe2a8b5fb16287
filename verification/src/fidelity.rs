//! Faithfulness of the elided rendering.
//!
//! This module relates the three machines of the model across one render:
//! the metrics pass on the input, the elision pass against a set of chosen
//! records, and the printer on the elision pass's output.  Its laws say
//! that on a complete document the pipeline cannot fail, that its output is
//! again a complete document, that the printed line count is exactly the
//! total the selector projected, and that no line is indented beyond the
//! depth limit.
use vstd::prelude::*;

use crate::event::{EvV, OutEvV};
use crate::model::{
    a_run, a_step, at_limit, c_run, c_step, counts, kid_sum, lemma_kid_sum_update, p_run, p_step,
    sel_pops, starts_of, ends_of, CState, Frame, Rec,
};

verus! {

// ---------------------------------------------------------------------------
// Sums and positions of chosen records and frames.
// ---------------------------------------------------------------------------

/// The lines saved by the chosen records among `rs`.
pub open spec fn sum_chosen(rs: Seq<Rec>, starts: Set<int>) -> int
    decreases rs.len(),
{
    if rs.len() == 0 {
        0
    } else {
        sum_chosen(rs.drop_last(), starts) + if starts.contains(rs.last().start as int) {
            rs.last().len as int
        } else {
            0
        }
    }
}

/// How many open composites are chosen for elision.
pub open spec fn open_chosen(stack: Seq<Frame>, starts: Set<int>) -> int
    decreases stack.len(),
{
    if stack.len() == 0 {
        0
    } else {
        open_chosen(stack.drop_last(), starts) + if starts.contains(
            stack.last().start as int,
        ) {
            1int
        } else {
            0
        }
    }
}

/// The index of the outermost open composite chosen for elision (the stack
/// length when none is).
pub open spec fn first_chosen(stack: Seq<Frame>, starts: Set<int>) -> int
    decreases stack.len(),
{
    if stack.len() == 0 {
        0
    } else if starts.contains(stack[0].start as int) {
        0
    } else {
        1 + first_chosen(stack.subrange(1, stack.len() as int), starts)
    }
}

/// The child lines accounted to open composites from index `j` inward.
pub open spec fn kid_sum_from(stack: Seq<Frame>, j: int) -> int {
    kid_sum(stack.subrange(j, stack.len() as int))
}

pub proof fn lemma_first_chosen_facts(stack: Seq<Frame>, starts: Set<int>)
    ensures
        0 <= first_chosen(stack, starts) <= stack.len(),
        forall|j: int|
            0 <= j < first_chosen(stack, starts) ==> !starts.contains(
                (#[trigger] stack[j]).start as int,
            ),
        first_chosen(stack, starts) < stack.len() ==> starts.contains(
            stack[first_chosen(stack, starts)].start as int,
        ),
        (open_chosen(stack, starts) == 0) == (first_chosen(stack, starts) == stack.len()),
        open_chosen(stack, starts) >= 0,
    decreases stack.len(),
{
    if stack.len() > 0 {
        let rest = stack.subrange(1, stack.len() as int);
        lemma_first_chosen_facts(rest, starts);
        lemma_open_chosen_front(stack, starts);
        assert(forall|j: int| 1 <= j < stack.len() ==> stack[j] == rest[j - 1]);
    }
}

/// `open_chosen` can be peeled from the front as well as from the back.
pub proof fn lemma_open_chosen_front(stack: Seq<Frame>, starts: Set<int>)
    requires
        stack.len() > 0,
    ensures
        open_chosen(stack, starts) == (if starts.contains(stack[0].start as int) {
            1int
        } else {
            0
        }) + open_chosen(stack.subrange(1, stack.len() as int), starts),
    decreases stack.len(),
{
    if stack.len() == 1 {
        assert(stack.subrange(1, 1) =~= Seq::<Frame>::empty());
        assert(stack.drop_last() =~= Seq::<Frame>::empty());
    } else {
        lemma_open_chosen_front(stack.drop_last(), starts);
        let rest = stack.subrange(1, stack.len() as int);
        assert(stack.drop_last().subrange(1, stack.len() - 1) =~= rest.drop_last());
        assert(stack.drop_last()[0] == stack[0]);
        assert(rest.last() == stack.last());
    }
}

pub proof fn lemma_first_chosen_push(stack: Seq<Frame>, starts: Set<int>, f: Frame)
    ensures
        first_chosen(stack.push(f), starts) == if first_chosen(stack, starts)
            < stack.len() {
            first_chosen(stack, starts)
        } else if starts.contains(f.start as int) {
            stack.len() as int
        } else {
            stack.len() + 1int
        },
        open_chosen(stack.push(f), starts) == open_chosen(stack, starts) + if starts.contains(
            f.start as int,
        ) {
            1int
        } else {
            0
        },
    decreases stack.len(),
{
    assert(stack.push(f).drop_last() =~= stack);
    assert(stack.push(f).last() == f);
    lemma_first_chosen_facts(stack, starts);
    if stack.len() > 0 {
        let rest = stack.subrange(1, stack.len() as int);
        lemma_first_chosen_push(rest, starts, f);
        lemma_first_chosen_facts(rest, starts);
        assert(stack.push(f).subrange(1, stack.len() + 1int) =~= rest.push(f));
        assert(stack.push(f)[0] == stack[0]);
        assert(first_chosen(stack, starts) == if starts.contains(stack[0].start as int) {
            0int
        } else {
            1 + first_chosen(rest, starts)
        });
        assert(first_chosen(stack.push(f), starts) == if starts.contains(
            stack[0].start as int,
        ) {
            0int
        } else {
            1 + first_chosen(rest.push(f), starts)
        });
        let fs = first_chosen(stack, starts);
        let fp = first_chosen(stack.push(f), starts);
        if starts.contains(stack[0].start as int) {
            assert(fp == 0 && fs == 0);
        } else if fs < stack.len() {
            assert(first_chosen(rest, starts) < rest.len());
            assert(fp == fs);
        } else if starts.contains(f.start as int) {
            assert(first_chosen(rest, starts) == rest.len());
            assert(fp == stack.len());
        } else {
            assert(fp == stack.len() + 1);
        }
    } else {
        assert(stack.push(f)[0] == f);
        assert(stack.push(f).subrange(1, 1) =~= Seq::<Frame>::empty());
        assert(first_chosen(Seq::<Frame>::empty(), starts) == 0);
        assert(first_chosen(stack.push(f), starts) == if starts.contains(f.start as int) {
            0int
        } else {
            1
        });
        assert(stack =~= Seq::<Frame>::empty());
        assert(first_chosen(stack, starts) == 0);
    }
}

pub proof fn lemma_first_chosen_drop_last(stack: Seq<Frame>, starts: Set<int>)
    requires
        stack.len() > 0,
    ensures
        first_chosen(stack.drop_last(), starts) == if first_chosen(stack, starts) >= stack.len()
            - 1 {
            stack.len() - 1
        } else {
            first_chosen(stack, starts)
        },
        open_chosen(stack.drop_last(), starts) == open_chosen(stack, starts) - if starts.contains(
            stack.last().start as int,
        ) {
            1int
        } else {
            0
        },
{
    let d = stack.drop_last();
    lemma_first_chosen_push(d, starts, stack.last());
    assert(d.push(stack.last()) =~= stack);
    lemma_first_chosen_facts(d, starts);
    lemma_first_chosen_facts(stack, starts);
}

pub proof fn lemma_first_chosen_update(stack: Seq<Frame>, starts: Set<int>, j: int, f: Frame)
    requires
        0 <= j < stack.len(),
        f.start == stack[j].start,
    ensures
        first_chosen(stack.update(j, f), starts) == first_chosen(stack, starts),
        open_chosen(stack.update(j, f), starts) == open_chosen(stack, starts),
    decreases stack.len(),
{
    let u = stack.update(j, f);
    assert(forall|k: int| 0 <= k < stack.len() ==> (#[trigger] stack[k]).start == u[k].start);
    lemma_first_chosen_update_front_view(stack, u, starts);
    lemma_open_chosen_update(stack, starts, j, f);
}

pub proof fn lemma_open_chosen_update(stack: Seq<Frame>, starts: Set<int>, j: int, f: Frame)
    requires
        0 <= j < stack.len(),
        f.start == stack[j].start,
    ensures
        open_chosen(stack.update(j, f), starts) == open_chosen(stack, starts),
    decreases stack.len(),
{
    let u = stack.update(j, f);
    if j == stack.len() - 1 {
        assert(u.drop_last() =~= stack.drop_last());
        assert(u.last() == f);
    } else {
        lemma_open_chosen_update(stack.drop_last(), starts, j, f);
        assert(u.drop_last() =~= stack.drop_last().update(j, f));
        assert(u.last() == stack.last());
    }
}

/// `first_chosen` only looks at the start positions, so two stacks with
/// the same starts agree on it.
pub proof fn lemma_first_chosen_update_front_view(a: Seq<Frame>, b: Seq<Frame>, starts: Set<int>)
    requires
        a.len() == b.len(),
        forall|j: int| 0 <= j < a.len() ==> (#[trigger] a[j]).start == b[j].start,
    ensures
        first_chosen(a, starts) == first_chosen(b, starts),
    decreases a.len(),
{
    if a.len() > 0 && !starts.contains(a[0].start as int) {
        let ra = a.subrange(1, a.len() as int);
        let rb = b.subrange(1, b.len() as int);
        assert(forall|j: int| 0 <= j < ra.len() ==> (#[trigger] ra[j]).start == rb[j].start);
        lemma_first_chosen_update_front_view(ra, rb, starts);
    }
}

pub proof fn lemma_sum_chosen_push(rs: Seq<Rec>, starts: Set<int>, r: Rec)
    ensures
        sum_chosen(rs.push(r), starts) == sum_chosen(rs, starts) + if starts.contains(
            r.start as int,
        ) {
            r.len as int
        } else {
            0
        },
{
    assert(rs.push(r).drop_last() =~= rs);
    assert(rs.push(r).last() == r);
}

// ---------------------------------------------------------------------------
// Geography of the records of a run.
// ---------------------------------------------------------------------------

/// Positional well-formedness of a metrics state: frame starts grow
/// strictly inward and precede the position; completed records close
/// before the position and never collide with an open frame or each other.
pub open spec fn wf_cstate(md: Option<int>, st: CState) -> bool {
    &&& forall|j1: int, j2: int|
        0 <= j1 < j2 < st.stack.len() ==> (#[trigger] st.stack[j1]).start < (#[trigger]
        st.stack[j2]).start
    &&& forall|j: int| 0 <= j < st.stack.len() ==> (#[trigger] st.stack[j]).start < st.pos
    &&& forall|k: int|
        0 <= k < st.exceeded.len() ==> (#[trigger] st.exceeded[k]).start < st.exceeded[k].end
            < st.pos
    &&& forall|k: int|
        0 <= k < st.queue.len() ==> (#[trigger] st.queue[k]).start < st.queue[k].end < st.pos
    &&& forall|j: int, k: int|
        0 <= j < st.stack.len() && 0 <= k < st.exceeded.len() ==> (#[trigger]
        st.stack[j]).start != (#[trigger] st.exceeded[k]).start
    &&& forall|j: int, k: int|
        0 <= j < st.stack.len() && 0 <= k < st.queue.len() ==> (#[trigger] st.stack[j]).start
            != (#[trigger] st.queue[k]).start
    &&& forall|k1: int, k2: int|
        0 <= k1 < k2 < st.exceeded.len() ==> (#[trigger] st.exceeded[k1]).start != (#[trigger]
        st.exceeded[k2]).start
    &&& forall|k1: int, k2: int|
        0 <= k1 < k2 < st.queue.len() ==> (#[trigger] st.queue[k1]).start != (#[trigger]
        st.queue[k2]).start
    &&& forall|k1: int, k2: int|
        0 <= k1 < st.exceeded.len() && 0 <= k2 < st.queue.len() ==> (#[trigger]
        st.exceeded[k1]).start != (#[trigger] st.queue[k2]).start
    &&& (st.ok && st.root_seen ==> st.stack.len() == 0)
    &&& forall|j: int|
        0 <= j < st.stack.len() && !counts(md, j) ==> (#[trigger] st.stack[j]).kids == 0
}

pub proof fn lemma_c_run_wf(md: Option<int>, s: Seq<EvV>)
    ensures
        wf_cstate(md, c_run(md, s)),
    decreases s.len(),
{
    if s.len() > 0 {
        lemma_c_run_wf(md, s.drop_last());
        let st = c_run(md, s.drop_last());
        let st1 = c_run(md, s);
        if st.ok {
            match s.last() {
                EvV::EndArray | EvV::EndObject => {
                    if st1.ok && st.stack.len() > 0 {
                        assert(st1.stack == st.stack.drop_last());
                        assert(forall|j: int|
                            0 <= j < st1.stack.len() ==> st1.stack[j] == st.stack[j]);
                    }
                },
                _ => {},
            }
        }
    }
}

/// How the records of the full run relate to a prefix of it: the prefix's
/// records come first; every record not yet completed closes at or after
/// the prefix position and starts either at a still-open tracked frame or
/// in the future; and every tracked frame at the depth limit is bound to
/// end up in `exceeded`.
pub open spec fn future_recs(md: Option<int>, c: CState, f: CState) -> bool {
    &&& c.exceeded.is_prefix_of(f.exceeded)
    &&& c.queue.is_prefix_of(f.queue)
    &&& forall|k: int|
        c.exceeded.len() <= k < f.exceeded.len() ==> (#[trigger] f.exceeded[k]).end >= c.pos
            && (f.exceeded[k].start >= c.pos || exists|j: int|
            0 <= j < c.stack.len() && (#[trigger] c.stack[j]).start == f.exceeded[k].start
                && counts(md, j))
    &&& forall|k: int|
        c.queue.len() <= k < f.queue.len() ==> (#[trigger] f.queue[k]).end >= c.pos && (
        f.queue[k].start >= c.pos || exists|j: int|
            0 <= j < c.stack.len() && (#[trigger] c.stack[j]).start == f.queue[k].start && counts(
                md,
                j,
            ))
    &&& forall|j: int|
        0 <= j < c.stack.len() && counts(md, j) && at_limit(md, j) ==> exists|k: int|
            0 <= k < f.exceeded.len() && (#[trigger] f.exceeded[k]).start == c.stack[j].start
                && f.exceeded[k].depth == j
}

#[verifier::rlimit(60)]
pub proof fn lemma_c_run_future(md: Option<int>, s: Seq<EvV>, i: int)
    requires
        0 <= i <= s.len(),
        c_run(md, s).ok,
        c_run(md, s).stack.len() == 0,
    ensures
        future_recs(md, c_run(md, s.subrange(0, i)), c_run(md, s)),
    decreases s.len() - i,
{
    let c = c_run(md, s.subrange(0, i));
    let f = c_run(md, s);
    if i == s.len() {
        assert(s.subrange(0, i) =~= s);
        assert(c.exceeded.is_prefix_of(f.exceeded)) by {
            assert(c.exceeded.subrange(0, c.exceeded.len() as int) =~= c.exceeded);
        }
        assert(c.queue.is_prefix_of(f.queue)) by {
            assert(c.queue.subrange(0, c.queue.len() as int) =~= c.queue);
        }
    } else {
        lemma_c_run_future(md, s, i + 1);
        assert(s.subrange(0, i + 1).drop_last() =~= s.subrange(0, i));
        assert(s.subrange(0, i + 1).last() == s[i]);
        let c1 = c_run(md, s.subrange(0, i + 1));
        assert(c1 == c_step(md, c, s[i]));
        if !c.ok {
            // A failed prefix freezes the machine all the way to the end,
            // which contradicts the full run being accepted.
            crate::model::lemma_c_run_fail_sticky(md, s, i);
            assert(false);
        }
        if !c1.ok {
            crate::model::lemma_c_run_fail_sticky(md, s, i + 1);
            assert(false);
        }
        lemma_c_run_wf(md, s.subrange(0, i));
        // The prefix records of step i+1 extend the prefix records of step
        // i by at most the record completed at step i, whose start is the
        // closing frame's and whose end is the current position.
        assert(c.exceeded.is_prefix_of(c1.exceeded) && c.queue.is_prefix_of(c1.queue)) by {
            match s[i] {
                EvV::EndArray | EvV::EndObject => {
                    if c1.ok && c.stack.len() > 0 {
                        if c1.exceeded != c.exceeded {
                            assert(c1.exceeded == c.exceeded.push(c1.exceeded.last()));
                            assert(c.exceeded =~= c1.exceeded.subrange(
                                0,
                                c.exceeded.len() as int,
                            ));
                        } else {
                            assert(c.exceeded =~= c1.exceeded.subrange(
                                0,
                                c.exceeded.len() as int,
                            ));
                        }
                        if c1.queue != c.queue {
                            assert(c1.queue == c.queue.push(c1.queue.last()));
                            assert(c.queue =~= c1.queue.subrange(0, c.queue.len() as int));
                        } else {
                            assert(c.queue =~= c1.queue.subrange(0, c.queue.len() as int));
                        }
                    } else {
                        assert(c.exceeded =~= c1.exceeded.subrange(0, c.exceeded.len() as int));
                        assert(c.queue =~= c1.queue.subrange(0, c.queue.len() as int));
                    }
                },
                _ => {
                    assert(c.exceeded =~= c1.exceeded.subrange(0, c.exceeded.len() as int));
                    assert(c.queue =~= c1.queue.subrange(0, c.queue.len() as int));
                },
            }
        }
        assert forall|k: int| c.exceeded.len() <= k < f.exceeded.len() implies (#[trigger]
        f.exceeded[k]).end >= c.pos && (f.exceeded[k].start >= c.pos || exists|j: int|
            0 <= j < c.stack.len() && (#[trigger] c.stack[j]).start == f.exceeded[k].start
                && counts(md, j)) by {
            if k < c1.exceeded.len() {
                // The record completed at step i: an end event closing the
                // top frame.
                assert(c1.exceeded[k] == f.exceeded[k]);
                assert(f.exceeded[k].start == c.stack.last().start);
                assert(c.stack[c.stack.len() - 1].start == c.stack.last().start);
            } else {
                // A record still in the future at step i+1.
                if f.exceeded[k].start < c1.pos {
                    let j = choose|j: int|
                        0 <= j < c1.stack.len() && (#[trigger] c1.stack[j]).start
                            == f.exceeded[k].start && counts(md, j);
                    match s[i] {
                        EvV::BeginArray | EvV::BeginObject => {
                            if j < c1.stack.len() - 1 {
                                assert(c.stack[j].start == f.exceeded[k].start);
                            } else {
                                assert(c1.stack[j].start == c.pos);
                            }
                        },
                        _ => {
                            assert(c.stack[j].start == f.exceeded[k].start);
                        },
                    }
                }
            }
        }
        assert forall|k: int| c.queue.len() <= k < f.queue.len() implies (#[trigger]
        f.queue[k]).end >= c.pos && (f.queue[k].start >= c.pos || exists|j: int|
            0 <= j < c.stack.len() && (#[trigger] c.stack[j]).start == f.queue[k].start && counts(
                md,
                j,
            )) by {
            if k < c1.queue.len() {
                assert(c1.queue[k] == f.queue[k]);
                assert(f.queue[k].start == c.stack.last().start);
                assert(c.stack[c.stack.len() - 1].start == c.stack.last().start);
            } else {
                if f.queue[k].start < c1.pos {
                    let j = choose|j: int|
                        0 <= j < c1.stack.len() && (#[trigger] c1.stack[j]).start
                            == f.queue[k].start && counts(md, j);
                    match s[i] {
                        EvV::BeginArray | EvV::BeginObject => {
                            if j < c1.stack.len() - 1 {
                                assert(c.stack[j].start == f.queue[k].start);
                            } else {
                                assert(c1.stack[j].start == c.pos);
                            }
                        },
                        _ => {
                            assert(c.stack[j].start == f.queue[k].start);
                        },
                    }
                }
            }
        }
        assert forall|j: int|
            0 <= j < c.stack.len() && counts(md, j) && at_limit(md, j) implies exists|k: int|
            0 <= k < f.exceeded.len() && (#[trigger] f.exceeded[k]).start == c.stack[j].start
                && f.exceeded[k].depth == j by {
            match s[i] {
                EvV::EndArray | EvV::EndObject => {
                    if c1.ok && j == c.stack.len() - 1 {
                        // This frame closes right now; its record joins
                        // `exceeded` because it sits at the depth limit.
                        let k = c.exceeded.len() as int;
                        assert(c1.exceeded[k].start == c.stack[j].start
                            && c1.exceeded[k].depth == j);
                        assert(f.exceeded[k].start == c.stack[j].start && f.exceeded[k].depth
                            == j);
                    } else {
                        assert(c1.stack[j] == c.stack[j]);
                    }
                },
                EvV::BeginArray | EvV::BeginObject => {
                    assert(c1.stack[j].start == c.stack[j].start);
                },
                EvV::Key(_) | EvV::Scalar(_) => {
                    if c.stack.len() > 0 && j < c.stack.len() - 1 {
                        assert(c1.stack[j] == c.stack[j]);
                    } else {
                        assert(c1.stack[j].start == c.stack[j].start);
                    }
                },
            }
        }
    }
}

// ---------------------------------------------------------------------------
// Which boundary markers the elision pass can meet, and where.
// ---------------------------------------------------------------------------

/// A selection fit for rendering: every chosen record is a record of the
/// run, every record beyond the depth limit is chosen, and a non-empty
/// node strictly inside a chosen one is chosen with it.
pub open spec fn good_choice(md: Option<int>, s: Seq<EvV>, ch: Seq<Rec>) -> bool {
    let f = c_run(md, s);
    &&& forall|k: int|
        0 <= k < ch.len() ==> f.exceeded.contains(#[trigger] ch[k]) || f.queue.contains(ch[k])
    &&& forall|k: int|
        0 <= k < f.exceeded.len() ==> starts_of(ch).contains(
            (#[trigger] f.exceeded[k]).start as int,
        )
    &&& forall|k1: int, k2: int|
        0 <= k1 < ch.len() && 0 <= k2 < f.queue.len() && (#[trigger] ch[k1]).start < (#[trigger]
        f.queue[k2]).start && f.queue[k2].end < ch[k1].end ==> starts_of(ch).contains(
            f.queue[k2].start as int,
        )
}

/// No chosen range ends at the position of a begin event.
#[verifier::rlimit(60)]
pub proof fn lemma_no_end_at_begin(md: Option<int>, s: Seq<EvV>, ch: Seq<Rec>, i: int)
    requires
        0 <= i < s.len(),
        s[i] is BeginArray || s[i] is BeginObject,
        c_run(md, s).ok,
        c_run(md, s).stack.len() == 0,
        good_choice(md, s, ch),
    ensures
        !ends_of(ch).contains(c_run(md, s.subrange(0, i)).pos as int),
{
    let c = c_run(md, s.subrange(0, i));
    let c1 = c_run(md, s.subrange(0, i + 1));
    let f = c_run(md, s);
    assert(s.subrange(0, i + 1).drop_last() =~= s.subrange(0, i));
    assert(s.subrange(0, i + 1).last() == s[i]);
    if !c.ok {
        crate::model::lemma_c_run_fail_sticky(md, s, i);
    }
    if !c1.ok {
        crate::model::lemma_c_run_fail_sticky(md, s, i + 1);
    }
    lemma_c_run_wf(md, s.subrange(0, i));
    lemma_c_run_future(md, s, i + 1);
    assert(c1.exceeded == c.exceeded && c1.queue == c.queue);
    assert(c1.pos == c.pos + 1);
    if ends_of(ch).contains(c.pos as int) {
        let k = choose|k: int| 0 <= k < ch.len() && ch[k].end == c.pos;
        if f.exceeded.contains(ch[k]) {
            let ke = choose|ke: int| 0 <= ke < f.exceeded.len() && f.exceeded[ke] == ch[k];
            if ke < c1.exceeded.len() {
                assert(c.exceeded[ke].end < c.pos);
            } else {
                assert(f.exceeded[ke].end >= c1.pos);
            }
        } else {
            let kq = choose|kq: int| 0 <= kq < f.queue.len() && f.queue[kq] == ch[k];
            if kq < c1.queue.len() {
                assert(c.queue[kq].end < c.pos);
            } else {
                assert(f.queue[kq].end >= c1.pos);
            }
        }
        assert(false);
    }
}

/// At an end event, the only marker that can match is the end of the
/// closing node's own chosen range, and no chosen range starts there.
#[verifier::rlimit(100)]
pub proof fn lemma_markers_at_end(md: Option<int>, s: Seq<EvV>, ch: Seq<Rec>, i: int)
    requires
        0 <= i < s.len(),
        s[i] is EndArray || s[i] is EndObject,
        c_run(md, s).ok,
        c_run(md, s).stack.len() == 0,
        good_choice(md, s, ch),
        c_run(md, s.subrange(0, i)).stack.len() > 0,
        c_run(md, s.subrange(0, i + 1)).ok,
    ensures
        !starts_of(ch).contains(c_run(md, s.subrange(0, i)).pos as int),
        ends_of(ch).contains(c_run(md, s.subrange(0, i)).pos as int) == starts_of(ch).contains(
            c_run(md, s.subrange(0, i)).stack.last().start as int,
        ),
        starts_of(ch).contains(c_run(md, s.subrange(0, i)).stack.last().start as int)
            ==> c_run(md, s.subrange(0, i + 1)).exceeded.len() == c_run(
            md,
            s.subrange(0, i),
        ).exceeded.len() + 1 || c_run(md, s.subrange(0, i + 1)).queue.len() == c_run(
            md,
            s.subrange(0, i),
        ).queue.len() + 1,
{
    let c = c_run(md, s.subrange(0, i));
    let c1 = c_run(md, s.subrange(0, i + 1));
    let f = c_run(md, s);
    let ft = c.stack.last();
    assert(s.subrange(0, i + 1).drop_last() =~= s.subrange(0, i));
    assert(s.subrange(0, i + 1).last() == s[i]);
    if !c.ok {
        crate::model::lemma_c_run_fail_sticky(md, s, i);
    }
    lemma_c_run_wf(md, s.subrange(0, i));
    lemma_c_run_future(md, s, i);
    lemma_c_run_future(md, s, i + 1);
    assert(c1.pos == c.pos + 1);
    assert(c.stack[c.stack.len() - 1] == ft);
    // Whether the node closing now leaves a record, and where.
    let grew_exc = c1.exceeded.len() == c.exceeded.len() + 1;
    let grew_q = c1.queue.len() == c.queue.len() + 1;
    if grew_exc {
        assert(c1.exceeded.last().start == ft.start && c1.exceeded.last().end == c.pos);
        assert(f.exceeded[c.exceeded.len() as int] == c1.exceeded.last());
    }
    if grew_q {
        assert(c1.queue.last().start == ft.start && c1.queue.last().end == c.pos);
        assert(f.queue[c.queue.len() as int] == c1.queue.last());
    }
    // No chosen range starts at an end event's position.
    if starts_of(ch).contains(c.pos as int) {
        let k = choose|k: int| 0 <= k < ch.len() && ch[k].start == c.pos;
        if f.exceeded.contains(ch[k]) {
            let ke = choose|ke: int| 0 <= ke < f.exceeded.len() && f.exceeded[ke] == ch[k];
            if ke < c1.exceeded.len() {
                if ke < c.exceeded.len() {
                    assert(c.exceeded[ke].start < c.pos);
                } else {
                    assert(c1.exceeded[ke].start == ft.start && ft.start < c.pos);
                }
            } else {
                assert(f.exceeded[ke].end >= c1.pos);
                if f.exceeded[ke].start < c1.pos {
                    let j = choose|j: int|
                        0 <= j < c1.stack.len() && (#[trigger] c1.stack[j]).start
                            == f.exceeded[ke].start && counts(md, j);
                    assert(c1.stack == c.stack.drop_last());
                    assert(c.stack[j].start < c.pos);
                }
            }
        } else {
            let kq = choose|kq: int| 0 <= kq < f.queue.len() && f.queue[kq] == ch[k];
            if kq < c1.queue.len() {
                if kq < c.queue.len() {
                    assert(c.queue[kq].start < c.pos);
                } else {
                    assert(c1.queue[kq].start == ft.start && ft.start < c.pos);
                }
            } else {
                assert(f.queue[kq].end >= c1.pos);
                if f.queue[kq].start < c1.pos {
                    let j = choose|j: int|
                        0 <= j < c1.stack.len() && (#[trigger] c1.stack[j]).start
                            == f.queue[kq].start && counts(md, j);
                    assert(c1.stack == c.stack.drop_last());
                    assert(c.stack[j].start < c.pos);
                }
            }
        }
        assert(false);
    }
    // A chosen range ends here exactly when the closing node is chosen.
    if ends_of(ch).contains(c.pos as int) {
        let k = choose|k: int| 0 <= k < ch.len() && ch[k].end == c.pos;
        if f.exceeded.contains(ch[k]) {
            let ke = choose|ke: int| 0 <= ke < f.exceeded.len() && f.exceeded[ke] == ch[k];
            if ke < c.exceeded.len() {
                assert(c.exceeded[ke].end < c.pos);
                assert(false);
            } else if ke >= c1.exceeded.len() {
                assert(f.exceeded[ke].end >= c1.pos);
                assert(false);
            } else {
                assert(ch[k] == c1.exceeded.last());
                assert(ch[k].start == ft.start);
            }
        } else {
            let kq = choose|kq: int| 0 <= kq < f.queue.len() && f.queue[kq] == ch[k];
            if kq < c.queue.len() {
                assert(c.queue[kq].end < c.pos);
                assert(false);
            } else if kq >= c1.queue.len() {
                assert(f.queue[kq].end >= c1.pos);
                assert(false);
            } else {
                assert(ch[k] == c1.queue.last());
                assert(ch[k].start == ft.start);
            }
        }
        assert(starts_of(ch).contains(ft.start as int));
    }
    if starts_of(ch).contains(ft.start as int) {
        let k = choose|k: int| 0 <= k < ch.len() && ch[k].start == ft.start;
        if f.exceeded.contains(ch[k]) {
            let ke = choose|ke: int| 0 <= ke < f.exceeded.len() && f.exceeded[ke] == ch[k];
            if ke < c.exceeded.len() {
                assert(c.exceeded[ke].start != ft.start);
                assert(false);
            } else if ke >= c1.exceeded.len() {
                assert(f.exceeded[ke].end >= c1.pos);
                if f.exceeded[ke].start < c1.pos {
                    let j = choose|j: int|
                        0 <= j < c1.stack.len() && (#[trigger] c1.stack[j]).start
                            == f.exceeded[ke].start && counts(md, j);
                    assert(c1.stack == c.stack.drop_last());
                    assert(c.stack[j].start == ft.start);
                    assert(j < c.stack.len() - 1);
                    assert(false);
                } else {
                    assert(ft.start < c.pos);
                    assert(false);
                }
            } else {
                assert(ch[k] == c1.exceeded.last());
                assert(ch[k].end == c.pos);
            }
        } else {
            let kq = choose|kq: int| 0 <= kq < f.queue.len() && f.queue[kq] == ch[k];
            if kq < c.queue.len() {
                assert(c.queue[kq].start != ft.start);
                assert(false);
            } else if kq >= c1.queue.len() {
                assert(f.queue[kq].end >= c1.pos);
                if f.queue[kq].start < c1.pos {
                    let j = choose|j: int|
                        0 <= j < c1.stack.len() && (#[trigger] c1.stack[j]).start
                            == f.queue[kq].start && counts(md, j);
                    assert(c1.stack == c.stack.drop_last());
                    assert(c.stack[j].start == ft.start);
                    assert(j < c.stack.len() - 1);
                    assert(false);
                } else {
                    assert(ft.start < c.pos);
                    assert(false);
                }
            } else {
                assert(ch[k] == c1.queue.last());
                assert(ch[k].end == c.pos);
            }
        }
        assert(ends_of(ch).contains(c.pos as int));
    }
}


/// A non-empty node closing inside an already-elided region is itself
/// chosen: its record lies strictly inside the chosen ancestor's record.
#[verifier::rlimit(60)]
pub proof fn lemma_sat_at_end(md: Option<int>, s: Seq<EvV>, ch: Seq<Rec>, i: int, jc: int)
    requires
        0 <= i < s.len(),
        s[i] is EndArray || s[i] is EndObject,
        c_run(md, s).ok,
        c_run(md, s).stack.len() == 0,
        good_choice(md, s, ch),
        c_run(md, s.subrange(0, i)).stack.len() > 0,
        c_run(md, s.subrange(0, i + 1)).ok,
        c_run(md, s.subrange(0, i + 1)).queue.len() == c_run(md, s.subrange(0, i)).queue.len()
            + 1,
        0 <= jc < c_run(md, s.subrange(0, i)).stack.len() - 1,
        starts_of(ch).contains(c_run(md, s.subrange(0, i)).stack[jc].start as int),
    ensures
        starts_of(ch).contains(c_run(md, s.subrange(0, i)).stack.last().start as int),
{
    let c = c_run(md, s.subrange(0, i));
    let c1 = c_run(md, s.subrange(0, i + 1));
    let f = c_run(md, s);
    let ft = c.stack.last();
    assert(s.subrange(0, i + 1).drop_last() =~= s.subrange(0, i));
    assert(s.subrange(0, i + 1).last() == s[i]);
    if !c.ok {
        crate::model::lemma_c_run_fail_sticky(md, s, i);
    }
    lemma_c_run_wf(md, s.subrange(0, i));
    lemma_c_run_future(md, s, i + 1);
    assert(c.stack[c.stack.len() - 1] == ft);
    // The record completed now.
    let rn = c1.queue.last();
    assert(rn.start == ft.start && rn.end == c.pos);
    assert(f.queue[c.queue.len() as int] == rn);
    assert(f.queue.contains(rn));
    // The chosen ancestor's record: it is neither completed nor the one
    // completed now, so it closes strictly later and starts strictly
    // earlier.
    let k0 = choose|k0: int| 0 <= k0 < ch.len() && ch[k0].start == c.stack[jc].start;
    assert(c.stack[jc].start < ft.start);
    if f.exceeded.contains(ch[k0]) {
        let ke = choose|ke: int| 0 <= ke < f.exceeded.len() && f.exceeded[ke] == ch[k0];
        if ke < c.exceeded.len() {
            assert(c.exceeded[ke].start != c.stack[jc].start);
            assert(false);
        } else {
            assert(f.exceeded[ke].end >= c1.pos);
            assert(c1.exceeded == c.exceeded);
        }
    } else {
        let kq = choose|kq: int| 0 <= kq < f.queue.len() && f.queue[kq] == ch[k0];
        if kq < c.queue.len() {
            assert(c1.queue.is_prefix_of(f.queue));
            assert(c1.queue =~= f.queue.subrange(0, c1.queue.len() as int));
            assert(f.queue[kq] == c1.queue[kq]);
            assert(c1.queue[kq] == c.queue[kq]);
            assert(c.queue[kq].start != c.stack[jc].start);
            assert(false);
        } else if kq == c.queue.len() {
            assert(c1.queue.is_prefix_of(f.queue));
            assert(c1.queue =~= f.queue.subrange(0, c1.queue.len() as int));
            assert(f.queue[kq] == c1.queue[kq]);
            assert(c1.queue[kq] == rn);
            assert(ch[k0].start == rn.start);
            assert(false);
        } else {
            assert(f.queue[kq].end >= c1.pos);
        }
    }
    assert(ch[k0].end > c.pos);
    assert(ch[k0].start < rn.start && rn.end < ch[k0].end);
    assert(starts_of(ch).contains(rn.start as int));
}


// ---------------------------------------------------------------------------
// The coupling of the three machines.
// ---------------------------------------------------------------------------

/// How the three machines relate after any prefix of the stream: the
/// elision pass has not failed and counts the open chosen composites; the
/// printer mirrors the metrics stack up to the outermost chosen composite;
/// and the printed line count is the projected total minus everything
/// already saved by chosen records, minus the still-open accounted
/// children inside the elided region.
pub open spec fn coupled(md: Option<int>, s: Seq<EvV>, ch: Seq<Rec>, i: int) -> bool {
    let starts = starts_of(ch);
    let ends = ends_of(ch);
    let c = c_run(md, s.subrange(0, i));
    let a = a_run(starts, ends, s.subrange(0, i));
    let p = p_run(a.out);
    let j0 = first_chosen(c.stack, starts);
    &&& a.ok
    &&& a.pos == c.pos
    &&& a.xd == open_chosen(c.stack, starts)
    &&& p.ok
    &&& p.stack.len() == j0
    &&& forall|j: int|
        0 <= j < j0 ==> (#[trigger] p.stack[j]).kind == c.stack[j].kind
            && p.stack[j].expect_val == c.stack[j].expect_val && p.stack[j].kids
            == c.stack[j].kids
    &&& p.lines.len() + (if c.root_seen || c.stack.len() > 0 {
        0int
    } else {
        1
    }) == c.total - sum_chosen(c.exceeded, starts) - sum_chosen(c.queue, starts) - kid_sum_from(
        c.stack,
        j0,
    )
    &&& p.root_seen == (c.root_seen || (c.stack.len() > 0 && j0 == 0))
    &&& ((c.root_seen || c.stack.len() > 0) ==> p.lines.len() >= 1)
    &&& (match md {
        Some(m) => p.stack.len() <= m + 1 && forall|k: int|
            0 <= k < p.lines.len() ==> (#[trigger] p.lines[k]).indent <= m + 1,
        None => true,
    })
}

/// When a frame at the first depth beyond the limit is open, it is chosen,
/// so the printer's stack never grows past the limit.
proof fn lemma_limit_frame_chosen(md: Option<int>, s: Seq<EvV>, ch: Seq<Rec>, i: int, j: int)
    requires
        0 <= i <= s.len(),
        c_run(md, s).ok,
        c_run(md, s).stack.len() == 0,
        good_choice(md, s, ch),
        0 <= j < c_run(md, s.subrange(0, i)).stack.len(),
        counts(md, j),
        at_limit(md, j),
    ensures
        starts_of(ch).contains(c_run(md, s.subrange(0, i)).stack[j].start as int),
{
    let c = c_run(md, s.subrange(0, i));
    let f = c_run(md, s);
    lemma_c_run_future(md, s, i);
    let k = choose|k: int|
        0 <= k < f.exceeded.len() && (#[trigger] f.exceeded[k]).start == c.stack[j].start
            && f.exceeded[k].depth == j;
    assert(starts_of(ch).contains(f.exceeded[k].start as int));
}

/// A usable depth limit is never negative.
pub open spec fn md_ok(md: Option<int>) -> bool {
    match md {
        None => true,
        Some(m) => m >= 0,
    }
}

/// Shared context for one step of the coupling proof.
proof fn lemma_coupled_step_setup(md: Option<int>, s: Seq<EvV>, ch: Seq<Rec>, i: int)
    requires
        1 <= i <= s.len(),
        c_run(md, s).ok,
        c_run(md, s).stack.len() == 0,
    ensures
        s.subrange(0, i).drop_last() =~= s.subrange(0, i - 1),
        s.subrange(0, i).last() == s[i - 1],
        c_run(md, s.subrange(0, i - 1)).ok,
        c_run(md, s.subrange(0, i)).ok,
        wf_cstate(md, c_run(md, s.subrange(0, i - 1))),
{
    assert(s.subrange(0, i).drop_last() =~= s.subrange(0, i - 1));
    assert(s.subrange(0, i).last() == s[i - 1]);
    if !c_run(md, s.subrange(0, i - 1)).ok {
        crate::model::lemma_c_run_fail_sticky(md, s, i - 1);
    }
    if !c_run(md, s.subrange(0, i)).ok {
        crate::model::lemma_c_run_fail_sticky(md, s, i);
    }
    lemma_c_run_wf(md, s.subrange(0, i - 1));
}

/// With no open chosen composite, the stack cannot reach past the depth
/// limit.
proof fn lemma_shallow_when_forwarding(md: Option<int>, s: Seq<EvV>, ch: Seq<Rec>, i: int)
    requires
        md_ok(md),
        0 <= i <= s.len(),
        c_run(md, s).ok,
        c_run(md, s).stack.len() == 0,
        good_choice(md, s, ch),
        first_chosen(c_run(md, s.subrange(0, i)).stack, starts_of(ch)) == c_run(
            md,
            s.subrange(0, i),
        ).stack.len(),
    ensures
        match md {
            Some(m) => c_run(md, s.subrange(0, i)).stack.len() <= m + 1,
            None => true,
        },
{
    let c = c_run(md, s.subrange(0, i));
    let starts = starts_of(ch);
    lemma_first_chosen_facts(c.stack, starts);
    match md {
        Some(m) => {
            if c.stack.len() > m + 1 {
                lemma_limit_frame_chosen(md, s, ch, i, m + 1);
                assert(starts.contains(c.stack[m + 1].start as int));
                assert(false);
            }
        },
        None => {},
    }
}

/// One coupling step on a key or scalar event.
#[verifier::rlimit(100)]
proof fn lemma_coupled_step_flat(md: Option<int>, s: Seq<EvV>, ch: Seq<Rec>, i: int)
    requires
        md_ok(md),
        1 <= i <= s.len(),
        s[i - 1] is Key || s[i - 1] is Scalar,
        c_run(md, s).ok,
        c_run(md, s).stack.len() == 0,
        good_choice(md, s, ch),
        coupled(md, s, ch, i - 1),
    ensures
        coupled(md, s, ch, i),
{
    let starts = starts_of(ch);
    let ends = ends_of(ch);
    lemma_coupled_step_setup(md, s, ch, i);
    let pre = s.subrange(0, i - 1);
    let cur = s.subrange(0, i);
    let c = c_run(md, pre);
    let c1 = c_run(md, cur);
    let a = a_run(starts, ends, pre);
    let a1 = a_run(starts, ends, cur);
    let p = p_run(a.out);
    assert(c1 == c_step(md, c, s[i - 1]));
    assert(a1 == a_step(starts, ends, a, s[i - 1]));
    lemma_first_chosen_facts(c.stack, starts);
    let j0 = first_chosen(c.stack, starts);
    let n = c.stack.len() as int;
    assert(a1.pos == a.pos && c1.pos == c.pos);
    if n > 0 {
        assert(c.stack[n - 1] == c.stack.last());
        assert(c1.stack == c.stack.update(n - 1, c1.stack.last()));
        lemma_first_chosen_update(c.stack, starts, n - 1, c1.stack.last());
        if j0 < n {
            assert(c1.stack.subrange(j0, n) =~= c.stack.subrange(j0, n).update(
                n - 1 - j0,
                c1.stack.last(),
            ));
            lemma_kid_sum_update(c.stack.subrange(j0, n), n - 1 - j0, c1.stack.last());
        } else {
            assert(c1.stack.subrange(n, n) =~= Seq::<Frame>::empty());
            assert(c.stack.subrange(n, n) =~= Seq::<Frame>::empty());
        }
    }
    if a.xd == 0 {
        assert(j0 == n);
        lemma_shallow_when_forwarding(md, s, ch, i - 1);
        let p1 = p_run(a1.out);
        assert(a1.out.drop_last() =~= a.out);
        assert(p1 == p_step(p, a1.out.last()));
        if n > 0 {
            assert(counts(md, n - 1));
        }
        assert(coupled(md, s, ch, i));
    } else {
        assert(a1.out == a.out);
        assert(n > 0);
        assert(j0 < n);
        assert(coupled(md, s, ch, i));
    }
}

/// One coupling step on a composite begin.
#[verifier::rlimit(100)]
proof fn lemma_coupled_step_begin(md: Option<int>, s: Seq<EvV>, ch: Seq<Rec>, i: int)
    requires
        md_ok(md),
        1 <= i <= s.len(),
        s[i - 1] is BeginArray || s[i - 1] is BeginObject,
        c_run(md, s).ok,
        c_run(md, s).stack.len() == 0,
        good_choice(md, s, ch),
        coupled(md, s, ch, i - 1),
    ensures
        coupled(md, s, ch, i),
{
    let starts = starts_of(ch);
    let ends = ends_of(ch);
    lemma_coupled_step_setup(md, s, ch, i);
    let pre = s.subrange(0, i - 1);
    let cur = s.subrange(0, i);
    let c = c_run(md, pre);
    let c1 = c_run(md, cur);
    let a = a_run(starts, ends, pre);
    let a1 = a_run(starts, ends, cur);
    let p = p_run(a.out);
    assert(c1 == c_step(md, c, s[i - 1]));
    assert(a1 == a_step(starts, ends, a, s[i - 1]));
    lemma_first_chosen_facts(c.stack, starts);
    let j0 = first_chosen(c.stack, starts);
    let n = c.stack.len() as int;
    lemma_no_end_at_begin(md, s, ch, i - 1);
    let nf = c1.stack.last();
    assert(nf.start == c.pos && nf.kids == 0);
    let stack_mid = c1.stack.drop_last();
    assert(c1.stack == stack_mid.push(nf));
    lemma_first_chosen_push(stack_mid, starts, nf);
    if n > 0 {
        assert(c.stack[n - 1] == c.stack.last());
        assert(stack_mid =~= c.stack.update(n - 1, stack_mid.last()));
        lemma_first_chosen_update(c.stack, starts, n - 1, stack_mid.last());
    } else {
        assert(stack_mid =~= c.stack);
    }
    assert(first_chosen(stack_mid, starts) == j0);
    let chosen_now = starts.contains(c.pos as int);
    if a.xd == 0 {
        assert(j0 == n);
        lemma_shallow_when_forwarding(md, s, ch, i - 1);
        let p1 = p_run(a1.out);
        assert(a1.out.drop_last() =~= a.out);
        if n > 0 {
            assert(counts(md, n - 1));
            assert(c.stack.subrange(n, n) =~= Seq::<Frame>::empty());
        } else {
            assert(c.stack.subrange(0, 0) =~= Seq::<Frame>::empty());
        }
        assert(kid_sum_from(c.stack, j0) == 0);
        if chosen_now {
            assert(p1 == p_step(p, OutEvV::Placeholder));
            assert(first_chosen(c1.stack, starts) == n);
            assert(c1.stack.subrange(n, n + 1) =~= seq![nf]);
            assert(kid_sum_from(c1.stack, n) == nf.kids) by {
                assert(seq![nf].drop_last() =~= Seq::<Frame>::empty());
            }
            assert(coupled(md, s, ch, i));
        } else {
            assert(p1 == p_step(p, a1.out.last()));
            assert(first_chosen(c1.stack, starts) == n + 1);
            match md {
                Some(m) => {
                    if n == m + 1 {
                        lemma_limit_frame_chosen(md, s, ch, i, n);
                        assert(c1.stack[n] == nf);
                        assert(false);
                    }
                    assert(n <= m);
                },
                None => {},
            }
            assert(c1.stack.subrange(n + 1, n + 1) =~= Seq::<Frame>::empty());
            assert(kid_sum_from(c1.stack, n + 1) == 0);
            assert(coupled(md, s, ch, i));
        }
    } else {
        assert(a1.out == a.out);
        assert(j0 < n);
        assert(first_chosen(c1.stack, starts) == j0);
        assert(c1.stack.subrange(j0, n + 1) =~= c.stack.subrange(j0, n).update(
            n - 1 - j0,
            stack_mid.last(),
        ).push(nf));
        lemma_kid_sum_update(c.stack.subrange(j0, n), n - 1 - j0, stack_mid.last());
        assert(kid_sum(c1.stack.subrange(j0, n + 1)) == kid_sum(
            c.stack.subrange(j0, n).update(n - 1 - j0, stack_mid.last()),
        ) + nf.kids) by {
            assert(c1.stack.subrange(j0, n + 1).drop_last() =~= c.stack.subrange(j0, n).update(
                n - 1 - j0,
                stack_mid.last(),
            ));
            assert(c1.stack.subrange(j0, n + 1).last() == nf);
        }
        assert(coupled(md, s, ch, i));
    }
}

/// One coupling step on a composite end.
#[verifier::rlimit(100)]
proof fn lemma_coupled_step_end(md: Option<int>, s: Seq<EvV>, ch: Seq<Rec>, i: int)
    requires
        md_ok(md),
        1 <= i <= s.len(),
        s[i - 1] is EndArray || s[i - 1] is EndObject,
        c_run(md, s).ok,
        c_run(md, s).stack.len() == 0,
        good_choice(md, s, ch),
        coupled(md, s, ch, i - 1),
    ensures
        coupled(md, s, ch, i),
{
    let starts = starts_of(ch);
    let ends = ends_of(ch);
    lemma_coupled_step_setup(md, s, ch, i);
    let pre = s.subrange(0, i - 1);
    let cur = s.subrange(0, i);
    let c = c_run(md, pre);
    let c1 = c_run(md, cur);
    let a = a_run(starts, ends, pre);
    let a1 = a_run(starts, ends, cur);
    let p = p_run(a.out);
    assert(c1 == c_step(md, c, s[i - 1]));
    assert(a1 == a_step(starts, ends, a, s[i - 1]));
    lemma_first_chosen_facts(c.stack, starts);
    let j0 = first_chosen(c.stack, starts);
    let n = c.stack.len() as int;
    assert(n > 0);
    lemma_markers_at_end(md, s, ch, i - 1);
    let ft = c.stack.last();
    assert(c.stack[n - 1] == ft);
    assert(c1.stack == c.stack.drop_last());
    lemma_first_chosen_drop_last(c.stack, starts);
    let chosen_top = starts.contains(ft.start as int);
    let grew_exc = c1.exceeded.len() == c.exceeded.len() + 1;
    let grew_q = c1.queue.len() == c.queue.len() + 1;
    lemma_c_run_future(md, s, i);
    let f = c_run(md, s);
    if grew_exc {
        lemma_sum_chosen_push(c.exceeded, starts, c1.exceeded.last());
        assert(c1.exceeded =~= f.exceeded.subrange(0, c1.exceeded.len() as int));
        assert(f.exceeded[c.exceeded.len() as int] == c1.exceeded.last());
    }
    if grew_q {
        lemma_sum_chosen_push(c.queue, starts, c1.queue.last());
    }
    if chosen_top {
        // The end of a chosen range: leave one level of the elided region.
        assert(ends.contains(c.pos as int));
        assert(j0 <= n - 1);
        assert(a.xd >= 1);
        assert(a1.out == a.out);
        assert(first_chosen(c1.stack, starts) == j0);
        assert(c1.stack.subrange(j0, n - 1) =~= c.stack.subrange(j0, n).drop_last());
        assert(kid_sum(c.stack.subrange(j0, n)) == kid_sum(c.stack.subrange(j0, n).drop_last())
            + ft.kids) by {
            assert(c.stack.subrange(j0, n).last() == ft);
        }
        assert(grew_exc || grew_q);
        if grew_exc {
            assert(c1.exceeded.last().start == ft.start);
            assert(c1.exceeded.last().len == if ft.kids > 0 {
                (ft.kids + 1) as nat
            } else {
                0nat
            });
        } else {
            assert(c1.queue.last().start == ft.start);
            assert(c1.queue.last().len == ft.kids + 1);
        }
        assert(coupled(md, s, ch, i));
    } else {
        assert(!ends.contains(c.pos as int));
        if a.xd == 0 {
            assert(j0 == n);
            lemma_shallow_when_forwarding(md, s, ch, i - 1);
            let p1 = p_run(a1.out);
            assert(a1.out.drop_last() =~= a.out);
            assert(p1 == p_step(p, a1.out.last()));
            assert(first_chosen(c1.stack, starts) == n - 1);
            assert(c1.stack.subrange(n - 1, n - 1) =~= Seq::<Frame>::empty());
            assert(c.stack.subrange(n, n) =~= Seq::<Frame>::empty());
            assert(counts(md, n - 1));
            assert(coupled(md, s, ch, i));
        } else {
            // A node inside the elided region closes; it cannot be one
            // that saves lines, or it would have been chosen with its
            // ancestor.
            assert(a1.out == a.out);
            assert(j0 < n);
            assert(j0 < n - 1) by {
                if j0 == n - 1 {
                    assert(starts.contains(c.stack[j0].start as int));
                }
            }
            if grew_q {
                lemma_sat_at_end(md, s, ch, i - 1, j0);
                assert(false);
            }
            if grew_exc {
                assert(starts_of(ch).contains(c1.exceeded.last().start as int));
                assert(c1.exceeded.last().start == ft.start);
                assert(false);
            }
            assert(ft.kids == 0) by {
                if counts(md, n - 1) {
                    if at_limit(md, n - 1) {
                        assert(grew_exc);
                    } else if ft.kids > 0 {
                        assert(grew_q);
                    }
                } else {
                    assert(c.stack[n - 1].kids == 0);
                }
            }
            assert(first_chosen(c1.stack, starts) == j0);
            assert(c1.stack.subrange(j0, n - 1) =~= c.stack.subrange(j0, n).drop_last());
            assert(kid_sum(c.stack.subrange(j0, n)) == kid_sum(
                c.stack.subrange(j0, n).drop_last(),
            ) + ft.kids) by {
                assert(c.stack.subrange(j0, n).last() == ft);
            }
            assert(coupled(md, s, ch, i));
        }
    }
}

/// The coupling holds after every prefix of a complete document.
pub proof fn lemma_coupled(md: Option<int>, s: Seq<EvV>, ch: Seq<Rec>, i: int)
    requires
        md_ok(md),
        0 <= i <= s.len(),
        c_run(md, s).ok,
        c_run(md, s).stack.len() == 0,
        good_choice(md, s, ch),
    ensures
        coupled(md, s, ch, i),
    decreases i,
{
    let starts = starts_of(ch);
    let ends = ends_of(ch);
    if i == 0 {
        assert(s.subrange(0, 0) =~= Seq::<EvV>::empty());
        let c = c_run(md, s.subrange(0, 0));
        let a = a_run(starts, ends, s.subrange(0, 0));
        assert(a.out =~= Seq::<OutEvV>::empty());
        assert(first_chosen(c.stack, starts) == 0);
        assert(c.stack.subrange(0, 0) =~= Seq::<Frame>::empty());
        assert(kid_sum_from(c.stack, 0) == 0);
        assert(sum_chosen(c.exceeded, starts) == 0);
        assert(sum_chosen(c.queue, starts) == 0);
    } else {
        lemma_coupled(md, s, ch, i - 1);
        match s[i - 1] {
            EvV::Key(_) | EvV::Scalar(_) => lemma_coupled_step_flat(md, s, ch, i),
            EvV::BeginArray | EvV::BeginObject => lemma_coupled_step_begin(md, s, ch, i),
            EvV::EndArray | EvV::EndObject => lemma_coupled_step_end(md, s, ch, i),
        }
    }
}


// ---------------------------------------------------------------------------
// The saved lines of a selection, summed two ways.
// ---------------------------------------------------------------------------

/// The lines saved by the records of `rs` that start at `p`.
pub open spec fn sum_start(rs: Seq<Rec>, p: int) -> int
    decreases rs.len(),
{
    if rs.len() == 0 {
        0
    } else {
        sum_start(rs.drop_last(), p) + if rs.last().start == p {
            rs.last().len as int
        } else {
            0
        }
    }
}

pub proof fn lemma_sum_chosen_concat(a: Seq<Rec>, b: Seq<Rec>, starts: Set<int>)
    ensures
        sum_chosen(a + b, starts) == sum_chosen(a, starts) + sum_chosen(b, starts),
    decreases b.len(),
{
    if b.len() == 0 {
        assert(a + b =~= a);
    } else {
        lemma_sum_chosen_concat(a, b.drop_last(), starts);
        assert((a + b).drop_last() =~= a + b.drop_last());
        assert((a + b).last() == b.last());
    }
}

pub proof fn lemma_sum_chosen_empty(rs: Seq<Rec>)
    ensures
        sum_chosen(rs, Set::<int>::empty()) == 0,
    decreases rs.len(),
{
    if rs.len() > 0 {
        lemma_sum_chosen_empty(rs.drop_last());
    }
}

pub proof fn lemma_sum_chosen_insert(rs: Seq<Rec>, s0: Set<int>, p: int)
    requires
        !s0.contains(p),
    ensures
        sum_chosen(rs, s0.insert(p)) == sum_chosen(rs, s0) + sum_start(rs, p),
    decreases rs.len(),
{
    if rs.len() > 0 {
        lemma_sum_chosen_insert(rs.drop_last(), s0, p);
    }
}

pub proof fn lemma_sum_start_unique(rs: Seq<Rec>, p: int, k0: int)
    requires
        0 <= k0 < rs.len(),
        rs[k0].start == p,
        forall|k: int| 0 <= k < rs.len() && k != k0 ==> (#[trigger] rs[k]).start != p,
    ensures
        sum_start(rs, p) == rs[k0].len,
    decreases rs.len(),
{
    if k0 == rs.len() - 1 {
        lemma_sum_start_none(rs.drop_last(), p);
    } else {
        lemma_sum_start_unique(rs.drop_last(), p, k0);
        assert(rs.last() == rs[rs.len() - 1]);
    }
}

pub proof fn lemma_sum_start_none(rs: Seq<Rec>, p: int)
    requires
        forall|k: int| 0 <= k < rs.len() ==> (#[trigger] rs[k]).start != p,
    ensures
        sum_start(rs, p) == 0,
    decreases rs.len(),
{
    if rs.len() > 0 {
        lemma_sum_start_none(rs.drop_last(), p);
        assert(rs.last() == rs[rs.len() - 1]);
    }
}

/// Summing the chosen records over the run's records is summing the chosen
/// records themselves, provided starts identify records uniquely.
pub proof fn lemma_sum_chosen_eq(all: Seq<Rec>, ch: Seq<Rec>)
    requires
        forall|k: int| 0 <= k < ch.len() ==> all.contains(#[trigger] ch[k]),
        forall|k1: int, k2: int|
            0 <= k1 < k2 < all.len() ==> (#[trigger] all[k1]).start != (#[trigger]
            all[k2]).start,
        forall|k1: int, k2: int|
            0 <= k1 < k2 < ch.len() ==> (#[trigger] ch[k1]).start != (#[trigger] ch[k2]).start,
    ensures
        sum_chosen(all, starts_of(ch)) == crate::model::sum_len(ch),
    decreases ch.len(),
{
    if ch.len() == 0 {
        assert(ch =~= Seq::<Rec>::empty());
        crate::model::lemma_bounds_of_empty();
        lemma_sum_chosen_empty(all);
        assert(starts_of(ch) == Set::<int>::empty());
        assert(sum_chosen(all, starts_of(ch)) == 0);
    } else {
        let c0 = ch.last();
        let rest = ch.drop_last();
        lemma_sum_chosen_eq(all, rest);
        crate::model::lemma_bounds_of_push(rest, c0);
        assert(rest.push(c0) =~= ch);
        assert(!starts_of(rest).contains(c0.start as int)) by {
            if starts_of(rest).contains(c0.start as int) {
                let k = choose|k: int| 0 <= k < rest.len() && rest[k].start == c0.start;
                assert(ch[k].start == ch[ch.len() - 1].start);
                assert(false);
            }
        }
        lemma_sum_chosen_insert(all, starts_of(rest), c0.start as int);
        assert(all.contains(ch[ch.len() - 1]));
        let k0 = choose|k0: int| 0 <= k0 < all.len() && all[k0] == c0;
        assert(forall|k: int|
            0 <= k < all.len() && k != k0 ==> (#[trigger] all[k]).start != c0.start as int);
        lemma_sum_start_unique(all, c0.start as int, k0);
        assert(starts_of(ch) == starts_of(rest).insert(c0.start as int));
        assert(sum_chosen(all, starts_of(ch)) == crate::model::sum_len(rest) + c0.len);
        assert(crate::model::sum_len(ch) == crate::model::sum_len(rest) + c0.len);
    }
}


// ---------------------------------------------------------------------------
// Nesting and eviction order.
// ---------------------------------------------------------------------------

/// A record strictly inside another belongs to a strictly deeper node.
pub open spec fn inside_deeper(outer: Rec, inner: Rec) -> bool {
    outer.start < inner.start && inner.end < outer.end ==> inner.depth > outer.depth
}

/// Frames contain every record that starts after them.
pub open spec fn nested_cstate(st: CState) -> bool {
    &&& forall|k: int, j: int|
        0 <= k < st.exceeded.len() && 0 <= j < st.stack.len() && (#[trigger]
        st.stack[j]).start < (#[trigger] st.exceeded[k]).start ==> st.exceeded[k].depth > j
    &&& forall|k: int, j: int|
        0 <= k < st.queue.len() && 0 <= j < st.stack.len() && (#[trigger] st.stack[j]).start
            < (#[trigger] st.queue[k]).start ==> st.queue[k].depth > j
    &&& forall|k1: int, k2: int|
        0 <= k1 < st.exceeded.len() && 0 <= k2 < st.exceeded.len() ==> inside_deeper(
            #[trigger] st.exceeded[k1],
            #[trigger] st.exceeded[k2],
        )
    &&& forall|k1: int, k2: int|
        0 <= k1 < st.exceeded.len() && 0 <= k2 < st.queue.len() ==> inside_deeper(
            #[trigger] st.exceeded[k1],
            #[trigger] st.queue[k2],
        )
    &&& forall|k1: int, k2: int|
        0 <= k1 < st.queue.len() && 0 <= k2 < st.exceeded.len() ==> inside_deeper(
            #[trigger] st.queue[k1],
            #[trigger] st.exceeded[k2],
        )
    &&& forall|k1: int, k2: int|
        0 <= k1 < st.queue.len() && 0 <= k2 < st.queue.len() ==> inside_deeper(
            #[trigger] st.queue[k1],
            #[trigger] st.queue[k2],
        )
}

#[verifier::rlimit(100)]
pub proof fn lemma_c_run_nesting(md: Option<int>, s: Seq<EvV>)
    ensures
        nested_cstate(c_run(md, s)),
    decreases s.len(),
{
    if s.len() > 0 {
        lemma_c_run_nesting(md, s.drop_last());
        lemma_c_run_wf(md, s.drop_last());
        let st = c_run(md, s.drop_last());
        let st1 = c_run(md, s);
        if st.ok {
            let n = st.stack.len() as int;
            match s.last() {
                EvV::EndArray | EvV::EndObject => {
                    if st1.ok && n > 0 {
                        assert(st.stack[n - 1] == st.stack.last());
                        assert(st1.stack == st.stack.drop_last());
                        assert(forall|j: int|
                            0 <= j < n - 1 ==> st1.stack[j] == #[trigger] st.stack[j]);
                    }
                },
                EvV::BeginArray | EvV::BeginObject => {
                    if st1.ok {
                        if n > 0 {
                            assert(st.stack[n - 1] == st.stack.last());
                            assert(forall|j: int|
                                0 <= j < n ==> (#[trigger] st1.stack[j]).start
                                    == st.stack[j].start);
                        }
                        assert(st1.stack[n].start == st.pos);
                    }
                },
                EvV::Key(_) | EvV::Scalar(_) => {
                    if st1.ok && n > 0 {
                        assert(st.stack[n - 1] == st.stack.last());
                        assert(forall|j: int|
                            0 <= j < n ==> (#[trigger] st1.stack[j]).start
                                == st.stack[j].start);
                    }
                },
            }
        }
    }
}

/// Whatever beats a popped record is popped as well.
pub proof fn lemma_sel_pops_closed(q: Seq<Rec>, total: int, limit: int)
    ensures
        forall|ky: int, kx: int|
            0 <= ky < q.len() && 0 <= kx < sel_pops(q, total, limit).len() && crate::model::beats(
                #[trigger] q[ky],
                #[trigger] sel_pops(q, total, limit)[kx],
            ) ==> sel_pops(q, total, limit).contains(q[ky]),
    decreases q.len(),
{
    if !(total <= limit || q.len() == 0) {
        let i = crate::model::best(q);
        crate::model::lemma_best_in_range(q);
        lemma_best_is_max(q);
        let rest = sel_pops(q.remove(i), total - q[i].len, limit);
        let pops = sel_pops(q, total, limit);
        assert(pops == seq![q[i]] + rest);
        lemma_sel_pops_closed(q.remove(i), total - q[i].len, limit);
        assert forall|ky: int, kx: int|
            0 <= ky < q.len() && 0 <= kx < pops.len() && crate::model::beats(
                #[trigger] q[ky],
                #[trigger] pops[kx],
            ) implies pops.contains(q[ky]) by {
            if kx == 0 {
                assert(!crate::model::beats(q[ky], q[i]));
            } else {
                assert(pops[kx] == rest[kx - 1]);
                if ky == i {
                    assert(pops[0] == q[ky]);
                } else {
                    let kr = if ky < i {
                        ky
                    } else {
                        ky - 1
                    };
                    assert(q.remove(i)[kr] == q[ky]);
                    assert(rest.contains(q.remove(i)[kr]));
                    let kp = choose|kp: int| 0 <= kp < rest.len() && rest[kp] == q[ky];
                    assert(pops[kp + 1] == q[ky]);
                }
            }
        }
    }
}

/// The highest-priority record is beaten by nothing in the queue.
pub proof fn lemma_best_is_max(q: Seq<Rec>)
    requires
        q.len() > 0,
    ensures
        forall|k: int|
            0 <= k < q.len() ==> !crate::model::beats(
                #[trigger] q[k],
                q[crate::model::best(q)],
            ),
    decreases q.len(),
{
    crate::model::lemma_best_in_range(q);
    if q.len() > 1 {
        lemma_best_is_max(q.drop_last());
        crate::model::lemma_best_in_range(q.drop_last());
        assert(forall|k: int| 0 <= k < q.len() - 1 ==> q.drop_last()[k] == #[trigger] q[k]);
        assert(q.last() == q[q.len() - 1]);
    }
}

/// Distinct start positions survive the budget loop.
pub proof fn lemma_sel_pops_starts_distinct(q: Seq<Rec>, total: int, limit: int)
    requires
        forall|k1: int, k2: int|
            0 <= k1 < k2 < q.len() ==> (#[trigger] q[k1]).start != (#[trigger] q[k2]).start,
    ensures
        forall|k1: int, k2: int|
            0 <= k1 < k2 < sel_pops(q, total, limit).len() ==> (#[trigger] sel_pops(
                q,
                total,
                limit,
            )[k1]).start != (#[trigger] sel_pops(q, total, limit)[k2]).start,
    decreases q.len(),
{
    if !(total <= limit || q.len() == 0) {
        let i = crate::model::best(q);
        crate::model::lemma_best_in_range(q);
        let qr = q.remove(i);
        let rest = sel_pops(qr, total - q[i].len, limit);
        let pops = sel_pops(q, total, limit);
        assert(pops == seq![q[i]] + rest);
        assert(forall|k1: int, k2: int|
            0 <= k1 < k2 < qr.len() ==> (#[trigger] qr[k1]).start != (#[trigger]
            qr[k2]).start) by {
            assert(forall|k: int|
                0 <= k < qr.len() ==> #[trigger] qr[k] == if k < i {
                    q[k]
                } else {
                    q[k + 1]
                });
        }
        lemma_sel_pops_starts_distinct(qr, total - q[i].len, limit);
        crate::model::lemma_sel_pops_from_queue(qr, total - q[i].len, limit);
        assert forall|k1: int, k2: int| 0 <= k1 < k2 < pops.len() implies (#[trigger]
        pops[k1]).start != (#[trigger] pops[k2]).start by {
            if k1 == 0 {
                assert(pops[k2] == rest[k2 - 1]);
                assert(qr.contains(rest[k2 - 1]));
                let kr = choose|kr: int| 0 <= kr < qr.len() && qr[kr] == rest[k2 - 1];
                assert(qr[kr] == if kr < i {
                    q[kr]
                } else {
                    q[kr + 1]
                });
            } else {
                assert(pops[k1] == rest[k1 - 1] && pops[k2] == rest[k2 - 1]);
            }
        }
    }
}


// ---------------------------------------------------------------------------
// The selector's choice is fit for rendering, and the final laws.
// ---------------------------------------------------------------------------

/// What the budget selector chooses always satisfies [`good_choice`], and
/// no two chosen records share a start position.
#[verifier::rlimit(100)]
pub proof fn lemma_selector_good_choice(md: Option<int>, s: Seq<EvV>, limit: int)
    requires
        md_ok(md),
        c_run(md, s).ok,
        c_run(md, s).stack.len() == 0,
    ensures
        ({
            let f = c_run(md, s);
            let ch = crate::model::chosen(f.exceeded, f.queue, f.total as int, limit);
            good_choice(md, s, ch) && forall|k1: int, k2: int|
                0 <= k1 < k2 < ch.len() ==> (#[trigger] ch[k1]).start != (#[trigger]
                ch[k2]).start
        }),
{
    let f = c_run(md, s);
    let ch = crate::model::chosen(f.exceeded, f.queue, f.total as int, limit);
    let t1 = f.total - crate::model::sum_len(f.exceeded);
    let pops = sel_pops(f.queue, t1, limit);
    lemma_c_run_wf(md, s);
    lemma_c_run_nesting(md, s);
    crate::laws::lemma_c_run_rec_props(md, s);
    crate::model::lemma_sel_pops_from_queue(f.queue, t1, limit);
    lemma_sel_pops_closed(f.queue, t1, limit);
    lemma_sel_pops_starts_distinct(f.queue, t1, limit);
    if limit == 0 {
        assert(ch == f.exceeded);
        assert(forall|k: int| 0 <= k < ch.len() ==> f.exceeded.contains(#[trigger] ch[k]));
        assert forall|k: int| 0 <= k < f.exceeded.len() implies starts_of(ch).contains(
            (#[trigger] f.exceeded[k]).start as int,
        ) by {
            assert(ch[k].start == f.exceeded[k].start);
        }
        assert forall|k1: int, k2: int|
            0 <= k1 < ch.len() && 0 <= k2 < f.queue.len() && (#[trigger] ch[k1]).start < (#[
                trigger
            ] f.queue[k2]).start && f.queue[k2].end < ch[k1].end implies starts_of(ch).contains(
            f.queue[k2].start as int,
        ) by {
            assert(inside_deeper(f.exceeded[k1], f.queue[k2]));
            assert(at_limit(md, f.exceeded[k1].depth as int));
            assert(counts(md, f.queue[k2].depth as int));
            assert(false);
        }
    } else {
        assert(ch == f.exceeded + pops);
        assert(forall|k: int|
            0 <= k < f.exceeded.len() ==> #[trigger] ch[k] == f.exceeded[k]);
        assert(forall|k: int|
            f.exceeded.len() <= k < ch.len() ==> #[trigger] ch[k] == pops[k
                - f.exceeded.len()]);
        assert forall|k: int| 0 <= k < ch.len() implies f.exceeded.contains(#[trigger] ch[k])
            || f.queue.contains(ch[k]) by {
            if k >= f.exceeded.len() {
                assert(f.queue.contains(pops[k - f.exceeded.len()]));
            }
        }
        assert forall|k: int| 0 <= k < f.exceeded.len() implies starts_of(ch).contains(
            (#[trigger] f.exceeded[k]).start as int,
        ) by {
            assert(ch[k].start == f.exceeded[k].start);
        }
        assert forall|k1: int, k2: int|
            0 <= k1 < ch.len() && 0 <= k2 < f.queue.len() && (#[trigger] ch[k1]).start < (#[
                trigger
            ] f.queue[k2]).start && f.queue[k2].end < ch[k1].end implies starts_of(ch).contains(
            f.queue[k2].start as int,
        ) by {
            if k1 < f.exceeded.len() {
                assert(inside_deeper(f.exceeded[k1], f.queue[k2]));
                assert(at_limit(md, f.exceeded[k1].depth as int));
                assert(counts(md, f.queue[k2].depth as int));
                assert(false);
            } else {
                let x = pops[k1 - f.exceeded.len()];
                assert(f.queue.contains(x));
                let kx = choose|kx: int| 0 <= kx < f.queue.len() && f.queue[kx] == x;
                assert(inside_deeper(f.queue[kx], f.queue[k2]));
                assert(f.queue[k2].depth > x.depth);
                assert(crate::model::beats(f.queue[k2], x));
                assert(pops.contains(f.queue[k2]));
                let kp = choose|kp: int| 0 <= kp < pops.len() && pops[kp] == f.queue[k2];
                assert(ch[f.exceeded.len() + kp] == f.queue[k2]);
            }
        }
        // Distinct starts across the whole choice.
        assert forall|k1: int, k2: int| 0 <= k1 < k2 < ch.len() implies (#[trigger]
        ch[k1]).start != (#[trigger] ch[k2]).start by {
            if k1 < f.exceeded.len() && k2 >= f.exceeded.len() {
                let x = pops[k2 - f.exceeded.len()];
                assert(f.queue.contains(x));
                let kx = choose|kx: int| 0 <= kx < f.queue.len() && f.queue[kx] == x;
                assert(f.exceeded[k1].start != f.queue[kx].start);
            }
        }
    }
}

/// The three machines at the end of a complete document: the elision pass
/// succeeds, and the printer state is exactly described by the coupling.
proof fn lemma_render_at_end(opts: crate::ser::Opts, s: Seq<EvV>)
    requires
        crate::model::valid(s),
    ensures
        coupled(opts.md(), s, full_choice(opts, s), s.len() as int),
        good_choice(opts.md(), s, full_choice(opts, s)),
        forall|k1: int, k2: int|
            0 <= k1 < k2 < full_choice(opts, s).len() ==> (#[trigger] full_choice(
                opts,
                s,
            )[k1]).start != (#[trigger] full_choice(opts, s)[k2]).start,
        s.subrange(0, s.len() as int) =~= s,
        c_run(opts.md(), s).ok && c_run(opts.md(), s).stack.len() == 0 && c_run(
            opts.md(),
            s,
        ).root_seen,
{
    let md = opts.md();
    crate::model::lemma_valid_md(md, s);
    lemma_selector_good_choice(md, s, opts.max_lines as int);
    lemma_coupled(md, s, full_choice(opts, s), s.len() as int);
    assert(s.subrange(0, s.len() as int) =~= s);
}

/// The records the whole pipeline elides for a given stream and options.
pub open spec fn full_choice(opts: crate::ser::Opts, s: Seq<EvV>) -> Seq<Rec> {
    let f = c_run(opts.md(), s);
    crate::model::chosen(f.exceeded, f.queue, f.total as int, opts.max_lines as int)
}

/// Well-formedness: on a complete document the elision pass succeeds and
/// the printed result is again one complete document; every elided region
/// has contracted to a single placeholder value.
pub proof fn law_well_formed(opts: crate::ser::Opts, s: Seq<EvV>)
    requires
        crate::model::valid(s),
    ensures
        crate::model::a_done(crate::ser::render_cut(opts, s)),
        crate::model::p_done(crate::ser::rendering(opts, s)),
{
    lemma_render_at_end(opts, s);
    let md = opts.md();
    let c = c_run(md, s);
    let starts = starts_of(full_choice(opts, s));
    assert(open_chosen(c.stack, starts) == 0);
    assert(first_chosen(c.stack, starts) == 0);
}

/// Exactness of the line count: the rendering of a complete document has
/// exactly the line total that the selector projected.
pub proof fn law_line_count(opts: crate::ser::Opts, s: Seq<EvV>)
    requires
        crate::model::valid(s),
    ensures
        crate::ser::rendering(opts, s).lines.len() == crate::model::left_total(
            c_run(opts.md(), s).exceeded,
            c_run(opts.md(), s).queue,
            c_run(opts.md(), s).total as int,
            opts.max_lines as int,
        ),
{
    lemma_render_at_end(opts, s);
    let md = opts.md();
    let c = c_run(md, s);
    let ch = full_choice(opts, s);
    let starts = starts_of(ch);
    assert(first_chosen(c.stack, starts) == 0);
    assert(c.stack.subrange(0, 0) =~= Seq::<Frame>::empty());
    assert(kid_sum_from(c.stack, 0) == 0);
    lemma_c_run_wf(md, s);
    lemma_sum_chosen_concat(c.exceeded, c.queue, starts);
    let all = c.exceeded + c.queue;
    assert(forall|k: int| 0 <= k < c.exceeded.len() ==> #[trigger] all[k] == c.exceeded[k]);
    assert(forall|k: int|
        c.exceeded.len() <= k < all.len() ==> #[trigger] all[k] == c.queue[k
            - c.exceeded.len()]);
    assert(forall|k1: int, k2: int|
        0 <= k1 < k2 < all.len() ==> (#[trigger] all[k1]).start != (#[trigger] all[k2]).start);
    assert forall|k: int| 0 <= k < ch.len() implies all.contains(#[trigger] ch[k]) by {
        if c.exceeded.contains(ch[k]) {
            let ke = choose|ke: int| 0 <= ke < c.exceeded.len() && c.exceeded[ke] == ch[k];
            assert(all[ke] == ch[k]);
        } else {
            let kq = choose|kq: int| 0 <= kq < c.queue.len() && c.queue[kq] == ch[k];
            assert(all[kq + c.exceeded.len()] == ch[k]);
        }
    }
    lemma_sum_chosen_eq(all, ch);
}

/// Depth bound: with a depth limit of `d`, no output line of a complete
/// document is indented more than `d + 1` steps.
pub proof fn law_depth_bound(opts: crate::ser::Opts, s: Seq<EvV>)
    requires
        crate::model::valid(s),
        opts.max_depth is Some,
    ensures
        forall|k: int|
            0 <= k < crate::ser::rendering(opts, s).lines.len() ==> (#[trigger] crate::ser::rendering(
                opts,
                s,
            ).lines[k]).indent <= opts.max_depth->0 + 1,
{
    lemma_render_at_end(opts, s);
}


/// Line bound, on the output itself: with a line limit set, a complete
/// document renders in at most that many lines, unless every evictable
/// node has already been elided; and elision never adds lines.
pub proof fn law_line_bound_rendered(opts: crate::ser::Opts, s: Seq<EvV>)
    requires
        crate::model::valid(s),
        opts.max_lines > 0,
    ensures
        ({
            let c = c_run(opts.md(), s);
            let ch = full_choice(opts, s);
            crate::ser::rendering(opts, s).lines.len() <= opts.max_lines as int || ch.len()
                == c.exceeded.len() + c.queue.len()
        }),
        crate::ser::rendering(opts, s).lines.len() <= c_run(opts.md(), s).total,
{
    law_line_count(opts, s);
    crate::laws::law_line_bound(opts, s);
}

/// Monotonicity in the line limit, on the output itself: tightening the
/// limit (or setting one where none was set) never increases the rendered
/// line count of a complete document.
pub proof fn law_lines_monotone_rendered(
    loose: crate::ser::Opts,
    tight: crate::ser::Opts,
    s: Seq<EvV>,
)
    requires
        crate::model::valid(s),
        loose.max_depth == tight.max_depth,
        tight.max_lines > 0,
        loose.max_lines == 0 || tight.max_lines <= loose.max_lines,
    ensures
        crate::ser::rendering(tight, s).lines.len() <= crate::ser::rendering(
            loose,
            s,
        ).lines.len(),
{
    law_line_count(loose, s);
    law_line_count(tight, s);
    assert(loose.md() == tight.md());
    crate::laws::law_lines_monotone(
        tight.md(),
        s,
        loose.max_lines as int,
        tight.max_lines as int,
    );
}


// ---------------------------------------------------------------------------
// Monotonicity in the depth limit.
// ---------------------------------------------------------------------------

/// `md1` is at most as permissive as `md2`.
pub open spec fn md_le(md1: Option<int>, md2: Option<int>) -> bool {
    match (md1, md2) {
        (_, None) => true,
        (None, Some(_)) => false,
        (Some(d1), Some(d2)) => d1 <= d2,
    }
}

/// The child lines accounted to open composites at the first depth beyond
/// the limit; they are bound to be subtracted again when those composites
/// close.
pub open spec fn al_kids(md: Option<int>, stack: Seq<Frame>) -> int
    decreases stack.len(),
{
    if stack.len() == 0 {
        0
    } else {
        al_kids(md, stack.drop_last()) + if at_limit(md, stack.len() - 1) {
            stack.last().kids as int
        } else {
            0
        }
    }
}

proof fn lemma_al_kids_update(md: Option<int>, stack: Seq<Frame>, j: int, f: Frame)
    requires
        0 <= j < stack.len(),
    ensures
        al_kids(md, stack.update(j, f)) == al_kids(md, stack) + if at_limit(md, j) {
            f.kids - stack[j].kids
        } else {
            0
        },
    decreases stack.len(),
{
    let u = stack.update(j, f);
    if j == stack.len() - 1 {
        assert(u.drop_last() =~= stack.drop_last());
        assert(u.last() == f);
    } else {
        lemma_al_kids_update(md, stack.drop_last(), j, f);
        assert(u.drop_last() =~= stack.drop_last().update(j, f));
        assert(u.last() == stack.last());
    }
}

/// The projected line count after the forced depth exclusions, tracked
/// while the stream is still being read.
pub open spec fn head_count(md: Option<int>, st: CState) -> int {
    st.total - crate::model::sum_len(st.exceeded) - al_kids(md, st.stack)
}

/// A looser depth limit never projects fewer lines: the two runs keep the
/// same shape, the looser one counts at least as many children everywhere,
/// and its projected count stays at least as large.
#[verifier::rlimit(100)]
pub proof fn lemma_head_monotone(md1: Option<int>, md2: Option<int>, s: Seq<EvV>)
    requires
        md_ok(md1),
        md_ok(md2),
        md_le(md1, md2),
    ensures
        crate::model::shape_eq(c_run(md1, s), c_run(md2, s)),
        forall|j: int|
            0 <= j < c_run(md1, s).stack.len() ==> (#[trigger] c_run(md1, s).stack[j]).kids
                <= c_run(md2, s).stack[j].kids,
        head_count(md1, c_run(md1, s)) <= head_count(md2, c_run(md2, s)),
    decreases s.len(),
{
    crate::model::lemma_c_run_shape(md1, md2, s);
    if s.len() == 0 {
    } else {
        lemma_head_monotone(md1, md2, s.drop_last());
        lemma_c_run_wf(md1, s.drop_last());
        lemma_c_run_wf(md2, s.drop_last());
        crate::model::lemma_c_run_shape(md1, md2, s.drop_last());
        let a = c_run(md1, s.drop_last());
        let b = c_run(md2, s.drop_last());
        let a1 = c_run(md1, s);
        let b1 = c_run(md2, s);
        if a.ok {
            let n = a.stack.len() as int;
            if n > 0 {
                assert(a.stack[n - 1] == a.stack.last());
                assert(b.stack[n - 1] == b.stack.last());
            }
            match s.last() {
                EvV::Key(_) | EvV::Scalar(_) => {
                    if a1.ok && n > 0 {
                        assert(a1.stack == a.stack.update(n - 1, a1.stack.last()));
                        assert(b1.stack == b.stack.update(n - 1, b1.stack.last()));
                        lemma_al_kids_update(md1, a.stack, n - 1, a1.stack.last());
                        lemma_al_kids_update(md2, b.stack, n - 1, b1.stack.last());
                    }
                },
                EvV::BeginArray | EvV::BeginObject => {
                    if a1.ok {
                        let mid_a = a1.stack.drop_last();
                        let mid_b = b1.stack.drop_last();
                        assert(al_kids(md1, a1.stack) == al_kids(md1, mid_a) + if at_limit(
                            md1,
                            n,
                        ) {
                            a1.stack.last().kids as int
                        } else {
                            0
                        });
                        assert(al_kids(md2, b1.stack) == al_kids(md2, mid_b) + if at_limit(
                            md2,
                            n,
                        ) {
                            b1.stack.last().kids as int
                        } else {
                            0
                        });
                        if n > 0 {
                            assert(mid_a =~= a.stack.update(n - 1, mid_a.last()));
                            assert(mid_b =~= b.stack.update(n - 1, mid_b.last()));
                            lemma_al_kids_update(md1, a.stack, n - 1, mid_a.last());
                            lemma_al_kids_update(md2, b.stack, n - 1, mid_b.last());
                        } else {
                            assert(mid_a =~= a.stack);
                            assert(mid_b =~= b.stack);
                        }
                    }
                },
                EvV::EndArray | EvV::EndObject => {
                    if a1.ok && n > 0 {
                        assert(a1.stack == a.stack.drop_last());
                        assert(b1.stack == b.stack.drop_last());
                        assert(al_kids(md1, a.stack) == al_kids(md1, a1.stack) + if at_limit(
                            md1,
                            n - 1,
                        ) {
                            a.stack.last().kids as int
                        } else {
                            0
                        });
                        assert(al_kids(md2, b.stack) == al_kids(md2, b1.stack) + if at_limit(
                            md2,
                            n - 1,
                        ) {
                            b.stack.last().kids as int
                        } else {
                            0
                        });
                        if a1.exceeded != a.exceeded {
                            crate::model::lemma_sum_len_push(a.exceeded, a1.exceeded.last());
                        }
                        if b1.exceeded != b.exceeded {
                            crate::model::lemma_sum_len_push(b.exceeded, b1.exceeded.last());
                        }
                    }
                },
            }
        }
    }
}

/// Monotonicity in the depth limit, on the output itself: with no line
/// budget, tightening the depth limit (or setting one where none was set)
/// never increases the rendered line count of a complete document.
pub proof fn law_depth_monotone_rendered(
    loose: crate::ser::Opts,
    tight: crate::ser::Opts,
    s: Seq<EvV>,
)
    requires
        crate::model::valid(s),
        loose.max_lines == 0,
        tight.max_lines == 0,
        md_le(tight.md(), loose.md()),
    ensures
        crate::ser::rendering(tight, s).lines.len() <= crate::ser::rendering(
            loose,
            s,
        ).lines.len(),
{
    law_line_count(loose, s);
    law_line_count(tight, s);
    lemma_head_monotone(tight.md(), loose.md(), s);
    crate::model::lemma_valid_md(tight.md(), s);
    crate::model::lemma_valid_md(loose.md(), s);
    assert(c_run(tight.md(), s).stack.len() == 0);
    assert(c_run(loose.md(), s).stack.len() == 0);
    assert(al_kids(tight.md(), c_run(tight.md(), s).stack) == 0);
    assert(al_kids(loose.md(), c_run(loose.md(), s).stack) == 0);
}

} // verus!
