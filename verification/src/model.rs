//! The mathematical model of the three passes.
//!
//! Each pass of the pipeline is specified as a small-step state machine over
//! the value of the event stream: [`c_run`] is the metrics pass, [`sel_pops`]
//! the budget selector's eviction order, [`a_run`] the elision pass and
//! [`p_run`] the base pretty printer.  The executable code in `ser` is
//! verified to implement these machines exactly.
use vstd::prelude::*;

use crate::event::{EvV, Kind, LineV, OutEvV};

verus! {

// ---------------------------------------------------------------------------
// The metrics (first-pass) machine.
// ---------------------------------------------------------------------------

/// An open composite during the first pass.
///
/// `kids` counts the lines contributed by the immediate children seen so
/// far; `start` is the position of the composite's begin event.  In an
/// object, `expect_val` records that a key has been seen and its value is
/// still pending.
pub struct Frame {
    pub kind: Kind,
    pub expect_val: bool,
    pub kids: nat,
    pub start: nat,
}

/// The record of one completed composite node.
///
/// `len` is the number of lines saved by eliding the node, given that every
/// deeper tracked node is elided as well: one line per immediate child plus
/// one for the closing bracket, and zero for an empty composite (which
/// renders on the line it starts on).  `start` and `end` are the positions
/// of the node's begin and end events.
pub struct Rec {
    pub depth: nat,
    pub len: nat,
    pub start: nat,
    pub end: nat,
}

/// The state of the metrics pass.
///
/// `pos` counts structural events only.  `total` is the running projected
/// line count of the fully rendered document, with subtrees deeper than the
/// depth limit folded into one line each.  `exceeded` collects the records
/// of nodes just beyond the depth limit and `queue` the records of all other
/// tracked, non-empty nodes, both in order of completion.
pub struct CState {
    pub ok: bool,
    pub root_seen: bool,
    pub pos: nat,
    pub total: nat,
    pub stack: Seq<Frame>,
    pub exceeded: Seq<Rec>,
    pub queue: Seq<Rec>,
}

/// With a depth limit of `m`, children of a composite at depth `d` are
/// individually accounted for only when `d <= m + 1`; anything deeper folds
/// into the single placeholder line of its ancestor at depth `m + 1`.
pub open spec fn counts(md: Option<int>, d: int) -> bool {
    match md {
        None => true,
        Some(m) => d <= m + 1,
    }
}

/// A node at depth `m + 1` sits just beyond the depth limit: it is tracked,
/// and unconditionally elided by the selector.
pub open spec fn at_limit(md: Option<int>, d: int) -> bool {
    match md {
        None => false,
        Some(m) => d == m + 1,
    }
}

pub open spec fn c_fail(st: CState) -> CState {
    CState { ok: false, ..st }
}

pub open spec fn c_init() -> CState {
    CState {
        ok: true,
        root_seen: false,
        pos: 0,
        total: 1,
        stack: Seq::empty(),
        exceeded: Seq::empty(),
        queue: Seq::empty(),
    }
}

/// An object key: one line, counted into the enclosing frame.
pub open spec fn step_key(md: Option<int>, st: CState) -> CState {
    if !st.ok {
        st
    } else if st.stack.len() == 0 {
        c_fail(st)
    } else {
        let top = st.stack.last();
        if top.kind != Kind::Obj || top.expect_val {
            c_fail(st)
        } else {
            let add: nat = if counts(md, st.stack.len() - 1) { 1 } else { 0 };
            CState {
                stack: st.stack.update(
                    st.stack.len() - 1,
                    Frame { expect_val: true, kids: top.kids + add, ..top },
                ),
                total: st.total + add,
                ..st
            }
        }
    }
}

/// A scalar: one line when it is an array element; an object value shares
/// its key's line; a root scalar is the whole document's single line.
pub open spec fn step_scalar(md: Option<int>, st: CState) -> CState {
    if !st.ok {
        st
    } else if st.stack.len() == 0 {
        if st.root_seen {
            c_fail(st)
        } else {
            CState { root_seen: true, ..st }
        }
    } else {
        let top = st.stack.last();
        if top.kind == Kind::Obj {
            if !top.expect_val {
                c_fail(st)
            } else {
                CState {
                    stack: st.stack.update(
                        st.stack.len() - 1,
                        Frame { expect_val: false, ..top },
                    ),
                    ..st
                }
            }
        } else {
            let add: nat = if counts(md, st.stack.len() - 1) { 1 } else { 0 };
            CState {
                stack: st.stack.update(
                    st.stack.len() - 1,
                    Frame { kids: top.kids + add, ..top },
                ),
                total: st.total + add,
                ..st
            }
        }
    }
}

/// A composite begin: as an array element it is one line (its open
/// bracket); as an object value it shares its key's line.  A frame is
/// pushed for it either way, and the position advances.
pub open spec fn step_begin(md: Option<int>, st: CState, k: Kind) -> CState {
    if !st.ok {
        st
    } else if st.stack.len() == 0 {
        if st.root_seen {
            c_fail(st)
        } else {
            CState {
                stack: st.stack.push(
                    Frame { kind: k, expect_val: false, kids: 0, start: st.pos },
                ),
                pos: st.pos + 1,
                ..st
            }
        }
    } else {
        let top = st.stack.last();
        if top.kind == Kind::Obj && !top.expect_val {
            c_fail(st)
        } else {
            let add: nat = if top.kind != Kind::Obj && counts(md, st.stack.len() - 1) {
                1
            } else {
                0
            };
            let stack1 = if top.kind == Kind::Obj {
                st.stack.update(st.stack.len() - 1, Frame { expect_val: false, ..top })
            } else {
                st.stack.update(st.stack.len() - 1, Frame { kids: top.kids + add, ..top })
            };
            CState {
                stack: stack1.push(
                    Frame { kind: k, expect_val: false, kids: 0, start: st.pos },
                ),
                pos: st.pos + 1,
                total: st.total + add,
                ..st
            }
        }
    }
}

/// A composite end: a non-empty composite adds its closing-bracket line;
/// the completed node's record goes to `exceeded` or `queue` when tracked.
pub open spec fn step_end(md: Option<int>, st: CState, k: Kind) -> CState {
    if !st.ok {
        st
    } else if st.stack.len() == 0 {
        c_fail(st)
    } else {
        let top = st.stack.last();
        if top.kind != k || (top.kind == Kind::Obj && top.expect_val) {
            c_fail(st)
        } else {
            let d = st.stack.len() - 1;
            let tracked_node = counts(md, d);
            let rlen: nat = if top.kids > 0 { top.kids + 1 } else { 0 };
            let rec = Rec { depth: d as nat, len: rlen, start: top.start, end: st.pos };
            CState {
                ok: true,
                root_seen: st.root_seen || st.stack.len() == 1,
                pos: st.pos + 1,
                total: st.total + if tracked_node && top.kids > 0 { 1nat } else { 0 },
                stack: st.stack.drop_last(),
                exceeded: if tracked_node && at_limit(md, d) {
                    st.exceeded.push(rec)
                } else {
                    st.exceeded
                },
                queue: if tracked_node && !at_limit(md, d) && top.kids > 0 {
                    st.queue.push(rec)
                } else {
                    st.queue
                },
            }
        }
    }
}

pub open spec fn c_step(md: Option<int>, st: CState, e: EvV) -> CState {
    match e {
        EvV::BeginArray => step_begin(md, st, Kind::Arr),
        EvV::BeginObject => step_begin(md, st, Kind::Obj),
        EvV::EndArray => step_end(md, st, Kind::Arr),
        EvV::EndObject => step_end(md, st, Kind::Obj),
        EvV::Key(_) => step_key(md, st),
        EvV::Scalar(_) => step_scalar(md, st),
    }
}

/// The metrics pass over a whole stream.
pub open spec fn c_run(md: Option<int>, s: Seq<EvV>) -> CState
    decreases s.len(),
{
    if s.len() == 0 {
        c_init()
    } else {
        c_step(md, c_run(md, s.drop_last()), s.last())
    }
}

/// A stream is one complete document: the machine accepts it and ends with
/// an empty stack after exactly one root value.
pub open spec fn valid_run(md: Option<int>, s: Seq<EvV>) -> bool {
    let st = c_run(md, s);
    st.ok && st.stack.len() == 0 && st.root_seen
}

/// Structural validity of a stream; independent of any depth limit.
pub open spec fn valid(s: Seq<EvV>) -> bool {
    valid_run(None, s)
}

// ---------------------------------------------------------------------------
// The budget selector.
// ---------------------------------------------------------------------------

/// Eviction priority: deeper nodes first, then larger nodes, ties broken by
/// the earliest start position.  This is a strict total order on records
/// with distinct start positions.
pub open spec fn beats(a: Rec, b: Rec) -> bool {
    a.depth > b.depth
        || (a.depth == b.depth && a.len > b.len)
        || (a.depth == b.depth && a.len == b.len && a.start < b.start)
}

/// The index of the highest-priority record of a non-empty queue.
pub open spec fn best(q: Seq<Rec>) -> int
    decreases q.len(),
{
    if q.len() <= 1 {
        0
    } else {
        let b = best(q.drop_last());
        if beats(q.last(), q[b]) {
            q.len() - 1
        } else {
            b
        }
    }
}

/// The lines saved by a set of evictions.
pub open spec fn sum_len(rs: Seq<Rec>) -> int
    decreases rs.len(),
{
    if rs.len() == 0 {
        0
    } else {
        sum_len(rs.drop_last()) + rs.last().len
    }
}

/// The records the budget loop evicts, in order: while the running total
/// exceeds the limit, the highest-priority record is popped and its `len`
/// subtracted.
pub open spec fn sel_pops(q: Seq<Rec>, total: int, limit: int) -> Seq<Rec>
    decreases q.len(),
{
    if total <= limit || q.len() == 0 {
        Seq::empty()
    } else {
        let i = best(q);
        if 0 <= i < q.len() {
            seq![q[i]] + sel_pops(q.remove(i), total - q[i].len, limit)
        } else {
            Seq::empty()
        }
    }
}

/// The evictions of a whole selection: every record beyond the depth limit,
/// then the budget loop's pops (with a limit of 0 meaning no line limit).
pub open spec fn chosen(exceeded: Seq<Rec>, q: Seq<Rec>, total: int, limit: int) -> Seq<Rec> {
    if limit == 0 {
        exceeded
    } else {
        exceeded + sel_pops(q, total - sum_len(exceeded), limit)
    }
}

/// The line total left after a selection.
pub open spec fn left_total(exceeded: Seq<Rec>, q: Seq<Rec>, total: int, limit: int) -> int {
    total - sum_len(chosen(exceeded, q, total, limit))
}

pub open spec fn starts_of(rs: Seq<Rec>) -> Set<int> {
    Set::new(|p: int| exists|i: int| 0 <= i < rs.len() && rs[i].start == p)
}

pub open spec fn ends_of(rs: Seq<Rec>) -> Set<int> {
    Set::new(|p: int| exists|i: int| 0 <= i < rs.len() && rs[i].end == p)
}

// ---------------------------------------------------------------------------
// The elision (second-pass) machine.
// ---------------------------------------------------------------------------

pub open spec fn is_structural(e: EvV) -> bool {
    match e {
        EvV::BeginArray | EvV::BeginObject | EvV::EndArray | EvV::EndObject => true,
        EvV::Key(_) | EvV::Scalar(_) => false,
    }
}

/// The state of the elision pass: the replayed position, the exclusion
/// nesting depth (0 = forwarding) and the output stream built so far.
pub struct AState {
    pub ok: bool,
    pub pos: nat,
    pub xd: nat,
    pub out: Seq<OutEvV>,
}

pub open spec fn a_init() -> AState {
    AState { ok: true, pos: 0, xd: 0, out: Seq::empty() }
}

/// One event of the elision pass.  Positions advance on structural events
/// exactly as in the first pass; boundary markers are only consulted there.
/// An end marker met while forwarding means the exclusion boundaries do not
/// fit the stream, which fails the pass.
pub open spec fn a_step(starts: Set<int>, ends: Set<int>, st: AState, e: EvV) -> AState {
    if !st.ok {
        st
    } else if is_structural(e) {
        let p = st.pos as int;
        if st.xd == 0 {
            if starts.contains(p) {
                AState { pos: st.pos + 1, xd: 1, out: st.out.push(OutEvV::Placeholder), ..st }
            } else if ends.contains(p) {
                AState { ok: false, ..st }
            } else {
                AState { pos: st.pos + 1, out: st.out.push(OutEvV::Ev(e)), ..st }
            }
        } else {
            if starts.contains(p) {
                AState { pos: st.pos + 1, xd: st.xd + 1, ..st }
            } else if ends.contains(p) {
                AState { pos: st.pos + 1, xd: (st.xd - 1) as nat, ..st }
            } else {
                AState { pos: st.pos + 1, ..st }
            }
        }
    } else {
        if st.xd == 0 {
            AState { out: st.out.push(OutEvV::Ev(e)), ..st }
        } else {
            st
        }
    }
}

/// The elision pass over a whole stream.
pub open spec fn a_run(starts: Set<int>, ends: Set<int>, s: Seq<EvV>) -> AState
    decreases s.len(),
{
    if s.len() == 0 {
        a_init()
    } else {
        a_step(starts, ends, a_run(starts, ends, s.drop_last()), s.last())
    }
}

/// The elision pass succeeded: no boundary mismatch, and every entered
/// exclusion was left again.
pub open spec fn a_done(st: AState) -> bool {
    st.ok && st.xd == 0
}

// ---------------------------------------------------------------------------
// The pretty-printer machine.
// ---------------------------------------------------------------------------

pub open spec fn open_tok(k: Kind) -> Seq<char> {
    match k {
        Kind::Arr => seq!['['],
        Kind::Obj => seq!['{'],
    }
}

pub open spec fn close_tok(k: Kind) -> Seq<char> {
    match k {
        Kind::Arr => seq![']'],
        Kind::Obj => seq!['}'],
    }
}

pub open spec fn colon_tok() -> Seq<char> {
    seq![':', ' ']
}

pub open spec fn comma_tok() -> Seq<char> {
    seq![',']
}

/// The placeholder token standing for an elided subtree.
pub open spec fn placeholder_tok() -> Seq<char> {
    seq!['.', '.', '.']
}

/// An open composite during printing: `kids` counts the children printed so
/// far, which drives comma placement and the empty-composite form.
pub struct PFrame {
    pub kind: Kind,
    pub expect_val: bool,
    pub kids: nat,
}

/// The state of the pretty printer.
pub struct PState {
    pub ok: bool,
    pub root_seen: bool,
    pub stack: Seq<PFrame>,
    pub lines: Seq<LineV>,
}

pub open spec fn p_init() -> PState {
    PState { ok: true, root_seen: false, stack: Seq::empty(), lines: Seq::empty() }
}

pub open spec fn p_fail(st: PState) -> PState {
    PState { ok: false, ..st }
}

pub open spec fn append_last(lines: Seq<LineV>, txt: Seq<char>) -> Seq<LineV> {
    lines.update(
        lines.len() - 1,
        LineV { indent: lines.last().indent, text: lines.last().text + txt },
    )
}

/// Starts a new element line; when an earlier sibling exists, its final
/// line first receives the separating comma.
pub open spec fn new_line(
    lines: Seq<LineV>,
    prev_sibling: bool,
    indent: int,
    txt: Seq<char>,
) -> Seq<LineV> {
    let l0 = if prev_sibling {
        append_last(lines, comma_tok())
    } else {
        lines
    };
    l0.push(LineV { indent, text: txt })
}

/// A value token in the current context: a root value or an array element
/// starts a line of its own; an object value is appended to its key's line.
/// `open_frame` is the frame pushed when the value is a composite begin.
pub open spec fn p_value(st: PState, txt: Seq<char>, open_frame: Option<PFrame>) -> PState {
    let stack1 = match open_frame {
        None => st.stack,
        Some(f) => st.stack.push(f),
    };
    if st.stack.len() == 0 {
        if st.root_seen {
            p_fail(st)
        } else {
            PState {
                root_seen: open_frame is None,
                stack: stack1,
                lines: st.lines.push(LineV { indent: 0, text: txt }),
                ..st
            }
        }
    } else {
        let top = st.stack.last();
        if top.kind == Kind::Obj {
            if !top.expect_val || st.lines.len() == 0 {
                p_fail(st)
            } else {
                PState {
                    stack: stack1.update(
                        st.stack.len() - 1,
                        PFrame { expect_val: false, ..top },
                    ),
                    lines: append_last(st.lines, txt),
                    ..st
                }
            }
        } else {
            if top.kids > 0 && st.lines.len() == 0 {
                p_fail(st)
            } else {
                PState {
                    stack: stack1.update(
                        st.stack.len() - 1,
                        PFrame { kids: top.kids + 1, ..top },
                    ),
                    lines: new_line(st.lines, top.kids > 0, st.stack.len() as int, txt),
                    ..st
                }
            }
        }
    }
}

pub open spec fn p_step(st: PState, e: OutEvV) -> PState {
    if !st.ok {
        st
    } else {
        match e {
            OutEvV::Placeholder => p_value(st, placeholder_tok(), None),
            OutEvV::Ev(EvV::Scalar(t)) => p_value(st, t, None),
            OutEvV::Ev(EvV::BeginArray) => p_value(
                st,
                open_tok(Kind::Arr),
                Some(PFrame { kind: Kind::Arr, expect_val: false, kids: 0 }),
            ),
            OutEvV::Ev(EvV::BeginObject) => p_value(
                st,
                open_tok(Kind::Obj),
                Some(PFrame { kind: Kind::Obj, expect_val: false, kids: 0 }),
            ),
            OutEvV::Ev(EvV::Key(t)) => {
                if st.stack.len() == 0 {
                    p_fail(st)
                } else {
                    let top = st.stack.last();
                    if top.kind != Kind::Obj || top.expect_val {
                        p_fail(st)
                    } else if top.kids > 0 && st.lines.len() == 0 {
                        p_fail(st)
                    } else {
                        PState {
                            stack: st.stack.update(
                                st.stack.len() - 1,
                                PFrame { expect_val: true, kids: top.kids + 1, ..top },
                            ),
                            lines: new_line(
                                st.lines,
                                top.kids > 0,
                                st.stack.len() as int,
                                t + colon_tok(),
                            ),
                            ..st
                        }
                    }
                }
            },
            OutEvV::Ev(EvV::EndArray) => p_close(st, Kind::Arr),
            OutEvV::Ev(EvV::EndObject) => p_close(st, Kind::Obj),
        }
    }
}

/// A composite end: an empty composite closes on the line it started on;
/// otherwise the closing bracket gets a line at the composite's own indent.
pub open spec fn p_close(st: PState, k: Kind) -> PState {
    if st.stack.len() == 0 {
        p_fail(st)
    } else {
        let top = st.stack.last();
        if top.kind != k || (top.kind == Kind::Obj && top.expect_val) || st.lines.len() == 0 {
            p_fail(st)
        } else {
            PState {
                root_seen: st.root_seen || st.stack.len() == 1,
                stack: st.stack.drop_last(),
                lines: if top.kids == 0 {
                    append_last(st.lines, close_tok(k))
                } else {
                    st.lines.push(
                        LineV { indent: st.stack.len() - 1, text: close_tok(k) },
                    )
                },
                ..st
            }
        }
    }
}

/// The pretty printer over a whole stream.
pub open spec fn p_run(s: Seq<OutEvV>) -> PState
    decreases s.len(),
{
    if s.len() == 0 {
        p_init()
    } else {
        p_step(p_run(s.drop_last()), s.last())
    }
}

/// The printer consumed one complete document.
pub open spec fn p_done(st: PState) -> bool {
    st.ok && st.stack.len() == 0 && st.root_seen
}

/// The unbounded base rendering of a stream: every event forwarded, none
/// elided.
pub open spec fn base_run(s: Seq<EvV>) -> PState {
    p_run(s.map_values(|e: EvV| OutEvV::Ev(e)))
}

// ---------------------------------------------------------------------------
// Basic facts about the metrics machine.
// ---------------------------------------------------------------------------

/// Every counter of the metrics pass is bounded by the stream length.
pub proof fn lemma_c_run_bounds(md: Option<int>, s: Seq<EvV>)
    ensures
        c_run(md, s).pos <= s.len(),
        1 <= c_run(md, s).total <= 1 + s.len(),
        forall|k: int|
            0 <= k < c_run(md, s).stack.len()
                ==> (#[trigger] c_run(md, s).stack[k]).kids + 1 <= c_run(md, s).total,
    decreases s.len(),
{
    if s.len() > 0 {
        lemma_c_run_bounds(md, s.drop_last());
    }
}

/// Once the metrics machine has rejected a prefix, it rejects the whole
/// stream.
pub proof fn lemma_c_run_fail_sticky(md: Option<int>, s: Seq<EvV>, i: int)
    requires
        0 <= i <= s.len(),
        !c_run(md, s.subrange(0, i)).ok,
    ensures
        !c_run(md, s).ok,
    decreases s.len() - i,
{
    if i < s.len() {
        assert(s.subrange(0, i + 1).drop_last() =~= s.subrange(0, i));
        assert(s.subrange(0, i + 1).last() == s[i]);
        lemma_c_run_fail_sticky(md, s, i + 1);
    } else {
        assert(s.subrange(0, s.len() as int) =~= s);
    }
}

/// The parts of two metrics states that do not depend on the depth limit.
pub open spec fn shape_eq(a: CState, b: CState) -> bool {
    &&& a.ok == b.ok
    &&& a.root_seen == b.root_seen
    &&& a.pos == b.pos
    &&& a.stack.len() == b.stack.len()
    &&& forall|k: int|
        0 <= k < a.stack.len()
            ==> (#[trigger] a.stack[k]).kind == b.stack[k].kind
                && a.stack[k].expect_val == b.stack[k].expect_val
                && a.stack[k].start == b.stack[k].start
}

/// Which streams the metrics machine accepts does not depend on the depth
/// limit: the limit only changes the accounting, never the shape checks.
pub proof fn lemma_c_run_shape(md1: Option<int>, md2: Option<int>, s: Seq<EvV>)
    ensures
        shape_eq(c_run(md1, s), c_run(md2, s)),
    decreases s.len(),
{
    if s.len() > 0 {
        lemma_c_run_shape(md1, md2, s.drop_last());
        let a = c_run(md1, s.drop_last());
        let b = c_run(md2, s.drop_last());
        let a1 = c_step(md1, a, s.last());
        let b1 = c_step(md2, b, s.last());
        if a.stack.len() > 0 {
            assert(a.stack.last() == a.stack[a.stack.len() - 1]);
            assert(b.stack.last() == b.stack[b.stack.len() - 1]);
        }
        match s.last() {
            EvV::BeginArray | EvV::BeginObject => {
                if a1.ok && a.stack.len() > 0 {
                    assert(a1.stack.last() == b1.stack.last());
                    assert(forall|k: int|
                        0 <= k < a1.stack.len() - 1
                            ==> (#[trigger] a1.stack[k]).kind == b1.stack[k].kind
                                && a1.stack[k].expect_val == b1.stack[k].expect_val
                                && a1.stack[k].start == b1.stack[k].start);
                }
            },
            _ => {},
        }
    }
}

/// Structural validity is the same under every depth limit.
pub proof fn lemma_valid_md(md: Option<int>, s: Seq<EvV>)
    ensures
        valid_run(md, s) == valid(s),
{
    lemma_c_run_shape(md, None, s);
}

// ---------------------------------------------------------------------------
// Facts about record sums and the selector.
// ---------------------------------------------------------------------------

pub proof fn lemma_sum_len_nonneg(s: Seq<Rec>)
    ensures
        0 <= sum_len(s),
    decreases s.len(),
{
    if s.len() > 0 {
        lemma_sum_len_nonneg(s.drop_last());
    }
}

pub proof fn lemma_sum_len_push(s: Seq<Rec>, r: Rec)
    ensures
        sum_len(s.push(r)) == sum_len(s) + r.len,
{
    assert(s.push(r).drop_last() =~= s);
    assert(s.push(r).last() == r);
}

pub proof fn lemma_sum_len_remove(s: Seq<Rec>, i: int)
    requires
        0 <= i < s.len(),
    ensures
        sum_len(s.remove(i)) == sum_len(s) - s[i].len,
    decreases s.len(),
{
    if i == s.len() - 1 {
        assert(s.remove(i) =~= s.drop_last());
    } else {
        lemma_sum_len_remove(s.drop_last(), i);
        assert(s.remove(i).drop_last() =~= s.drop_last().remove(i));
        assert(s.remove(i).last() == s.last());
    }
}

pub proof fn lemma_sum_len_concat(a: Seq<Rec>, b: Seq<Rec>)
    ensures
        sum_len(a + b) == sum_len(a) + sum_len(b),
    decreases b.len(),
{
    if b.len() == 0 {
        assert(a + b =~= a);
    } else {
        lemma_sum_len_concat(a, b.drop_last());
        assert((a + b).drop_last() =~= a + b.drop_last());
        assert((a + b).last() == b.last());
    }
}

/// The child lines accounted to the still-open composites.
pub open spec fn kid_sum(s: Seq<Frame>) -> int
    decreases s.len(),
{
    if s.len() == 0 {
        0
    } else {
        kid_sum(s.drop_last()) + s.last().kids
    }
}

pub proof fn lemma_kid_sum_update(s: Seq<Frame>, i: int, f: Frame)
    requires
        0 <= i < s.len(),
    ensures
        kid_sum(s.update(i, f)) == kid_sum(s) - s[i].kids + f.kids,
    decreases s.len(),
{
    if i == s.len() - 1 {
        assert(s.update(i, f).drop_last() =~= s.drop_last());
        assert(s.update(i, f).last() == f);
    } else {
        lemma_kid_sum_update(s.drop_last(), i, f);
        assert(s.update(i, f).drop_last() =~= s.drop_last().update(i, f));
        assert(s.update(i, f).last() == s.last());
    }
}

/// The projected total is exactly one line for the root plus everything
/// accounted to completed records and to the still-open composites.  In
/// particular, once the stack is empty, all record lengths together stay
/// below the total.
pub proof fn lemma_c_run_total_eq(md: Option<int>, s: Seq<EvV>)
    ensures
        c_run(md, s).total == 1 + sum_len(c_run(md, s).exceeded) + sum_len(c_run(md, s).queue)
            + kid_sum(c_run(md, s).stack),
        forall|k: int|
            0 <= k < c_run(md, s).stack.len() && !counts(md, k)
                ==> (#[trigger] c_run(md, s).stack[k]).kids == 0,
    decreases s.len(),
{
    if s.len() > 0 {
        lemma_c_run_total_eq(md, s.drop_last());
        let st = c_run(md, s.drop_last());
        let st1 = c_run(md, s);
        if st.ok {
            let n = st.stack.len() as int;
            match s.last() {
                EvV::Key(_) => {
                    if n > 0 {
                        let top = st.stack.last();
                        if top.kind == Kind::Obj && !top.expect_val {
                            let add: nat = if counts(md, n - 1) {
                                1nat
                            } else {
                                0nat
                            };
                            let f = Frame { expect_val: true, kids: top.kids + add, ..top };
                            assert(st1.stack == st.stack.update(n - 1, f));
                            lemma_kid_sum_update(st.stack, n - 1, f);
                        }
                    }
                },
                EvV::Scalar(_) => {
                    if n > 0 {
                        let top = st.stack.last();
                        if top.kind == Kind::Obj {
                            if top.expect_val {
                                let f = Frame { expect_val: false, ..top };
                                assert(st1.stack == st.stack.update(n - 1, f));
                                lemma_kid_sum_update(st.stack, n - 1, f);
                            }
                        } else {
                            let add: nat = if counts(md, n - 1) {
                                1nat
                            } else {
                                0nat
                            };
                            let f = Frame { kids: top.kids + add, ..top };
                            assert(st1.stack == st.stack.update(n - 1, f));
                            lemma_kid_sum_update(st.stack, n - 1, f);
                        }
                    }
                },
                EvV::BeginArray | EvV::BeginObject => {
                    if st1.ok {
                        if n == 0 {
                            assert(st1.stack.drop_last() =~= st.stack);
                        } else {
                            let top = st.stack.last();
                            let add: nat = if top.kind != Kind::Obj && counts(md, n - 1) {
                                1nat
                            } else {
                                0nat
                            };
                            let f = if top.kind == Kind::Obj {
                                Frame { expect_val: false, ..top }
                            } else {
                                Frame { kids: top.kids + add, ..top }
                            };
                            assert(st1.stack.drop_last() =~= st.stack.update(n - 1, f));
                            assert(kid_sum(st1.stack) == kid_sum(st.stack.update(n - 1, f))
                                + st1.stack.last().kids);
                            lemma_kid_sum_update(st.stack, n - 1, f);
                        }
                    }
                },
                EvV::EndArray | EvV::EndObject => {
                    if st1.ok && n > 0 {
                        assert(st1.stack == st.stack.drop_last());
                        assert(kid_sum(st.stack) == kid_sum(st1.stack) + st.stack.last().kids);
                        if st1.exceeded != st.exceeded {
                            lemma_sum_len_push(st.exceeded, st1.exceeded.last());
                        }
                        if st1.queue != st.queue {
                            lemma_sum_len_push(st.queue, st1.queue.last());
                        }
                    }
                },
            }
        }
    }
}

/// The highest-priority index of a non-empty queue is in range.
pub proof fn lemma_best_in_range(q: Seq<Rec>)
    requires
        q.len() > 0,
    ensures
        0 <= best(q) < q.len(),
    decreases q.len(),
{
    if q.len() > 1 {
        lemma_best_in_range(q.drop_last());
    }
}

/// The budget loop either gets the total under the limit or exhausts the
/// queue, and it never adds lines.
pub proof fn lemma_sel_pops_exhausts(q: Seq<Rec>, total: int, limit: int)
    ensures
        total - sum_len(sel_pops(q, total, limit)) <= limit || sel_pops(q, total, limit).len()
            == q.len(),
        total - sum_len(sel_pops(q, total, limit)) <= total,
    decreases q.len(),
{
    lemma_sum_len_nonneg(sel_pops(q, total, limit));
    if !(total <= limit || q.len() == 0) {
        let i = best(q);
        lemma_best_in_range(q);
        lemma_sel_pops_exhausts(q.remove(i), total - q[i].len, limit);
        lemma_sum_len_concat(seq![q[i]], sel_pops(q.remove(i), total - q[i].len, limit));
        assert(sum_len(seq![q[i]]) == q[i].len as int) by {
            assert(seq![q[i]].drop_last() =~= Seq::<Rec>::empty());
            assert(seq![q[i]].last() == q[i]);
            assert(sum_len(Seq::<Rec>::empty()) == 0);
        }
    }
}

/// A tighter line limit never evicts less: the pops under the looser limit
/// are a prefix of the pops under the tighter one.
pub proof fn lemma_sel_pops_monotone(q: Seq<Rec>, total: int, l_tight: int, l_loose: int)
    requires
        l_tight <= l_loose,
    ensures
        sel_pops(q, total, l_loose).is_prefix_of(sel_pops(q, total, l_tight)),
        total - sum_len(sel_pops(q, total, l_tight)) <= total - sum_len(
            sel_pops(q, total, l_loose),
        ),
    decreases q.len(),
{
    let pl = sel_pops(q, total, l_loose);
    let pt = sel_pops(q, total, l_tight);
    if total <= l_loose || q.len() == 0 {
        assert(pl =~= Seq::<Rec>::empty());
        lemma_sum_len_nonneg(pt);
        assert(pl.is_prefix_of(pt));
    } else {
        let i = best(q);
        lemma_best_in_range(q);
        lemma_sel_pops_monotone(q.remove(i), total - q[i].len, l_tight, l_loose);
        let rl = sel_pops(q.remove(i), total - q[i].len, l_loose);
        let rt = sel_pops(q.remove(i), total - q[i].len, l_tight);
        lemma_sum_len_concat(seq![q[i]], rl);
        lemma_sum_len_concat(seq![q[i]], rt);
        assert(pl =~= seq![q[i]] + rl);
        assert(pt =~= seq![q[i]] + rt);
        assert(pl.subrange(0, pl.len() as int) =~= pl);
        assert(rl.is_prefix_of(rt));
        assert(pt.subrange(0, pl.len() as int) =~= pl) by {
            assert(forall|k: int| 0 <= k < rl.len() ==> rl[k] == rt[k]) by {
                assert(forall|k: int|
                    0 <= k < rl.len() ==> rl[k] == #[trigger] rt.subrange(0, rl.len() as int)[k]);
            }
        }
    }
}

/// Everything the budget loop pops comes from the queue.
pub proof fn lemma_sel_pops_from_queue(q: Seq<Rec>, total: int, limit: int)
    ensures
        forall|k: int|
            0 <= k < sel_pops(q, total, limit).len() ==> q.contains(
                #[trigger] sel_pops(q, total, limit)[k],
            ),
    decreases q.len(),
{
    if !(total <= limit || q.len() == 0) {
        let i = best(q);
        lemma_best_in_range(q);
        lemma_sel_pops_from_queue(q.remove(i), total - q[i].len, limit);
        let rest = sel_pops(q.remove(i), total - q[i].len, limit);
        assert forall|k: int| 0 <= k < sel_pops(q, total, limit).len() implies q.contains(
            #[trigger] sel_pops(q, total, limit)[k],
        ) by {
            if k == 0 {
                assert(q[i] == sel_pops(q, total, limit)[0]);
            } else {
                assert(sel_pops(q, total, limit)[k] == rest[k - 1]);
                assert(q.remove(i).contains(rest[k - 1]));
                let j = choose|j: int| 0 <= j < q.remove(i).len() && q.remove(i)[j] == rest[k - 1];
                if j < i {
                    assert(q[j] == q.remove(i)[j]);
                } else {
                    assert(q[j + 1] == q.remove(i)[j]);
                }
            }
        }
    }
}

// ---------------------------------------------------------------------------
// Basic facts about the printer machine.
// ---------------------------------------------------------------------------

/// Every child count of the printer is bounded by the stream length.
pub proof fn lemma_p_run_bounds(s: Seq<OutEvV>)
    ensures
        all_p_kids_bounded(p_run(s), s.len() as int),
    decreases s.len(),
{
    if s.len() > 0 {
        lemma_p_run_bounds(s.drop_last());
    }
}

pub open spec fn all_p_kids_bounded(st: PState, n: int) -> bool {
    forall|k: int| 0 <= k < st.stack.len() ==> (#[trigger] st.stack[k]).kids <= n
}

/// Once the printer has rejected a prefix, it rejects the whole stream.
pub proof fn lemma_p_run_fail_sticky(s: Seq<OutEvV>, i: int)
    requires
        0 <= i <= s.len(),
        !p_run(s.subrange(0, i)).ok,
    ensures
        !p_run(s).ok,
    decreases s.len() - i,
{
    if i < s.len() {
        assert(s.subrange(0, i + 1).drop_last() =~= s.subrange(0, i));
        assert(s.subrange(0, i + 1).last() == s[i]);
        lemma_p_run_fail_sticky(s, i + 1);
    } else {
        assert(s.subrange(0, s.len() as int) =~= s);
    }
}

pub proof fn lemma_bounds_of_push(s: Seq<Rec>, r: Rec)
    ensures
        starts_of(s.push(r)) == starts_of(s).insert(r.start as int),
        ends_of(s.push(r)) == ends_of(s).insert(r.end as int),
{
    let n = s.len() as int;
    assert forall|p: int| #[trigger] starts_of(s.push(r)).contains(p) implies starts_of(
        s,
    ).insert(r.start as int).contains(p) by {
        let i = choose|i: int| 0 <= i < s.push(r).len() && s.push(r)[i].start == p;
        if i < n {
            assert(s[i].start == p);
        }
    }
    assert forall|p: int| starts_of(s).insert(r.start as int).contains(p) implies #[trigger]
    starts_of(s.push(r)).contains(p) by {
        if p == r.start as int {
            assert(s.push(r)[n].start == p);
        } else {
            let i = choose|i: int| 0 <= i < s.len() && s[i].start == p;
            assert(s.push(r)[i].start == p);
        }
    }
    assert(starts_of(s.push(r)) =~= starts_of(s).insert(r.start as int));
    assert forall|p: int| #[trigger] ends_of(s.push(r)).contains(p) implies ends_of(s).insert(
        r.end as int,
    ).contains(p) by {
        let i = choose|i: int| 0 <= i < s.push(r).len() && s.push(r)[i].end == p;
        if i < n {
            assert(s[i].end == p);
        }
    }
    assert forall|p: int| ends_of(s).insert(r.end as int).contains(p) implies #[trigger] ends_of(
        s.push(r),
    ).contains(p) by {
        if p == r.end as int {
            assert(s.push(r)[n].end == p);
        } else {
            let i = choose|i: int| 0 <= i < s.len() && s[i].end == p;
            assert(s.push(r)[i].end == p);
        }
    }
    assert(ends_of(s.push(r)) =~= ends_of(s).insert(r.end as int));
}

pub proof fn lemma_bounds_of_concat(a: Seq<Rec>, b: Seq<Rec>)
    ensures
        starts_of(a + b) == starts_of(a).union(starts_of(b)),
        ends_of(a + b) == ends_of(a).union(ends_of(b)),
{
    let n = a.len() as int;
    assert forall|p: int| #[trigger] starts_of(a + b).contains(p) implies starts_of(a).union(
        starts_of(b),
    ).contains(p) by {
        let i = choose|i: int| 0 <= i < (a + b).len() && (a + b)[i].start == p;
        if i < n {
            assert(a[i].start == p);
        } else {
            assert(b[i - n].start == p);
        }
    }
    assert forall|p: int| starts_of(a).union(starts_of(b)).contains(p) implies #[trigger]
    starts_of(a + b).contains(p) by {
        if starts_of(a).contains(p) {
            let i = choose|i: int| 0 <= i < a.len() && a[i].start == p;
            assert((a + b)[i].start == p);
        } else {
            let i = choose|i: int| 0 <= i < b.len() && b[i].start == p;
            assert((a + b)[i + n].start == p);
        }
    }
    assert(starts_of(a + b) =~= starts_of(a).union(starts_of(b)));
    assert forall|p: int| #[trigger] ends_of(a + b).contains(p) implies ends_of(a).union(
        ends_of(b),
    ).contains(p) by {
        let i = choose|i: int| 0 <= i < (a + b).len() && (a + b)[i].end == p;
        if i < n {
            assert(a[i].end == p);
        } else {
            assert(b[i - n].end == p);
        }
    }
    assert forall|p: int| ends_of(a).union(ends_of(b)).contains(p) implies #[trigger] ends_of(
        a + b,
    ).contains(p) by {
        if ends_of(a).contains(p) {
            let i = choose|i: int| 0 <= i < a.len() && a[i].end == p;
            assert((a + b)[i].end == p);
        } else {
            let i = choose|i: int| 0 <= i < b.len() && b[i].end == p;
            assert((a + b)[i + n].end == p);
        }
    }
    assert(ends_of(a + b) =~= ends_of(a).union(ends_of(b)));
}

pub proof fn lemma_bounds_of_empty()
    ensures
        starts_of(Seq::<Rec>::empty()) == Set::<int>::empty(),
        ends_of(Seq::<Rec>::empty()) == Set::<int>::empty(),
{
    assert(starts_of(Seq::<Rec>::empty()) =~= Set::<int>::empty());
    assert(ends_of(Seq::<Rec>::empty()) =~= Set::<int>::empty());
}

// ---------------------------------------------------------------------------
// Basic facts about the elision machine.
// ---------------------------------------------------------------------------

pub proof fn lemma_a_run_bounds(starts: Set<int>, ends: Set<int>, s: Seq<EvV>)
    ensures
        a_run(starts, ends, s).pos <= s.len(),
        a_run(starts, ends, s).xd <= a_run(starts, ends, s).pos,
    decreases s.len(),
{
    if s.len() > 0 {
        lemma_a_run_bounds(starts, ends, s.drop_last());
    }
}

/// The output of the elision machine is no longer than its input.
pub proof fn lemma_a_run_out_len(starts: Set<int>, ends: Set<int>, s: Seq<EvV>)
    ensures
        a_run(starts, ends, s).out.len() <= s.len(),
    decreases s.len(),
{
    if s.len() > 0 {
        lemma_a_run_out_len(starts, ends, s.drop_last());
    }
}

/// Once the elision machine has hit a boundary mismatch, it stays failed.
pub proof fn lemma_a_run_fail_sticky(starts: Set<int>, ends: Set<int>, s: Seq<EvV>, i: int)
    requires
        0 <= i <= s.len(),
        !a_run(starts, ends, s.subrange(0, i)).ok,
    ensures
        !a_run(starts, ends, s).ok,
    decreases s.len() - i,
{
    if i < s.len() {
        assert(s.subrange(0, i + 1).drop_last() =~= s.subrange(0, i));
        assert(s.subrange(0, i + 1).last() == s[i]);
        lemma_a_run_fail_sticky(starts, ends, s, i + 1);
    } else {
        assert(s.subrange(0, s.len() as int) =~= s);
    }
}

} // verus!
