//! The metrics pass: one walk over the event stream that checks its shape,
//! projects the total line count of the fully rendered document, and records
//! every tracked composite node for the budget selector.
use vstd::prelude::*;

use crate::event::{views, Error, Event, EvV, Kind};
use crate::model::{
    c_init, c_run, c_step, counts, lemma_c_run_bounds, lemma_c_run_fail_sticky,
    lemma_valid_md, step_begin, step_end, step_key, step_scalar, valid, CState, Frame, Rec,
};
use super::Opts;

verus! {

/// An open composite on the metrics stack.
#[derive(Clone, Copy, Debug)]
pub struct HalfObject {
    pub kind: Kind,
    pub expect_val: bool,
    pub kids: usize,
    pub start: usize,
}

impl View for HalfObject {
    type V = Frame;

    open spec fn view(&self) -> Frame {
        Frame {
            kind: self.kind,
            expect_val: self.expect_val,
            kids: self.kids as nat,
            start: self.start as nat,
        }
    }
}

/// The record of one completed composite node (see [`Rec`]).
#[derive(Clone, Copy, Debug)]
pub struct Object {
    pub depth: usize,
    pub length: usize,
    pub start: usize,
    pub end: usize,
}

impl View for Object {
    type V = Rec;

    open spec fn view(&self) -> Rec {
        Rec {
            depth: self.depth as nat,
            len: self.length as nat,
            start: self.start as nat,
            end: self.end as nat,
        }
    }
}

pub open spec fn frames_view(s: Seq<HalfObject>) -> Seq<Frame> {
    s.map_values(|f: HalfObject| f@)
}

pub open spec fn recs_view(s: Seq<Object>) -> Seq<Rec> {
    s.map_values(|r: Object| r@)
}

/// What the metrics pass hands to the budget selector.
#[derive(Debug)]
pub struct Metrics {
    /// The projected line count of the full rendering (with subtrees deeper
    /// than the depth limit folded into one line each).
    pub length: usize,
    /// Records of nodes just beyond the depth limit, to be elided
    /// unconditionally.
    pub exceeded: Vec<Object>,
    /// Records of all other tracked, non-empty nodes: the eviction queue.
    pub objects: Vec<Object>,
}

/// `m` faithfully carries the results of the metrics machine state `st`.
pub open spec fn wf_metrics(m: Metrics, st: CState) -> bool {
    &&& m.length as int == st.total
    &&& recs_view(m.exceeded@) == st.exceeded
    &&& recs_view(m.objects@) == st.queue
}

/// The state of the metrics pass, advanced one event at a time.
#[derive(Debug)]
pub struct Counter {
    pub max_depth: Option<usize>,
    pub position: usize,
    pub length: usize,
    pub root_seen: bool,
    pub stack: Vec<HalfObject>,
    pub exceeded: Vec<Object>,
    pub objects: Vec<Object>,
}

impl Counter {
    /// The depth limit as the model sees it.
    pub open spec fn md(self) -> Option<int> {
        match self.max_depth {
            None => None,
            Some(d) => Some(d as int),
        }
    }

    /// The metrics machine state this counter is in.
    pub open spec fn model(self) -> CState {
        CState {
            ok: true,
            root_seen: self.root_seen,
            pos: self.position as nat,
            total: self.length as nat,
            stack: frames_view(self.stack@),
            exceeded: recs_view(self.exceeded@),
            queue: recs_view(self.objects@),
        }
    }

    pub fn new(max_depth: Option<usize>) -> (r: Counter)
        ensures
            r.model() == c_init(),
            r.max_depth == max_depth,
    {
        let r = Counter {
            max_depth,
            position: 0,
            length: 1,
            root_seen: false,
            stack: Vec::new(),
            exceeded: Vec::new(),
            objects: Vec::new(),
        };
        proof {
            assert(frames_view(r.stack@) =~= Seq::<Frame>::empty());
            assert(recs_view(r.exceeded@) =~= Seq::<Rec>::empty());
            assert(recs_view(r.objects@) =~= Seq::<Rec>::empty());
        }
        r
    }

    /// The composite that would begin now (at depth `stack.len()`) lies
    /// beyond the tracked range.
    pub fn skip(&self) -> (r: bool)
        ensures
            r == !counts(self.md(), self.stack@.len() as int),
    {
        match self.max_depth {
            None => false,
            Some(m) => self.stack.len() > 0 && self.stack.len() - 1 > m,
        }
    }

    /// Children of the innermost open composite are not individually
    /// accounted for.
    pub fn skip1(&self) -> (r: bool)
        ensures
            r == !counts(self.md(), self.stack@.len() - 1),
    {
        match self.max_depth {
            None => false,
            Some(m) => self.stack.len() > 1 && self.stack.len() - 2 > m,
        }
    }

    /// Accounts one line for a child of the innermost open composite.
    pub fn incr(&mut self)
        requires
            old(self).stack@.len() > 0,
            old(self).length < usize::MAX,
            old(self).stack@.last().kids < usize::MAX,
        ensures
            final(self).max_depth == old(self).max_depth,
            final(self).position == old(self).position,
            final(self).root_seen == old(self).root_seen,
            final(self).exceeded == old(self).exceeded,
            final(self).objects == old(self).objects,
            ({
                let add: nat = if counts(old(self).md(), old(self).stack@.len() - 1) {
                    1nat
                } else {
                    0nat
                };
                final(self).length == old(self).length + add
                    && frames_view(final(self).stack@) == frames_view(old(self).stack@).update(
                    old(self).stack@.len() - 1,
                    Frame { kids: old(self).stack@.last()@.kids + add, ..old(self).stack@.last()@ },
                )
            }),
    {
        if !self.skip1() {
            let mut f = self.stack.pop().unwrap();
            f.kids = f.kids + 1;
            self.stack.push(f);
            self.length = self.length + 1;
            proof {
                assert(frames_view(self.stack@) =~= frames_view(old(self).stack@).update(
                    old(self).stack@.len() - 1,
                    Frame {
                        kids: old(self).stack@.last()@.kids + 1,
                        ..old(self).stack@.last()@
                    },
                ));
            }
        } else {
            proof {
                assert(frames_view(self.stack@) =~= frames_view(old(self).stack@).update(
                    old(self).stack@.len() - 1,
                    Frame { kids: old(self).stack@.last()@.kids + 0, ..old(self).stack@.last()@ },
                ));
            }
        }
    }

    /// An object member key.
    pub fn key(&mut self) -> (r: bool)
        requires
            old(self).length < usize::MAX,
            old(self).stack@.len() > 0 ==> old(self).stack@.last().kids < usize::MAX,
        ensures
            final(self).max_depth == old(self).max_depth,
            r == step_key(old(self).md(), old(self).model()).ok,
            r ==> final(self).model() == step_key(old(self).md(), old(self).model()),
            !r ==> *final(self) == *old(self),
    {
        if self.stack.len() == 0 {
            return false;
        }
        let n = self.stack.len();
        let is_obj = self.stack[n - 1].kind == Kind::Obj;
        let ev = self.stack[n - 1].expect_val;
        if !is_obj || ev {
            return false;
        }
        let add_one = !self.skip1();
        let mut f = self.stack.pop().unwrap();
        if add_one {
            f.kids = f.kids + 1;
            self.length = self.length + 1;
        }
        f.expect_val = true;
        self.stack.push(f);
        proof {
            assert(frames_view(self.stack@) =~= step_key(old(self).md(), old(self).model()).stack);
        }
        true
    }

    /// A scalar value.
    pub fn scalar(&mut self) -> (r: bool)
        requires
            old(self).length < usize::MAX,
            old(self).stack@.len() > 0 ==> old(self).stack@.last().kids < usize::MAX,
        ensures
            final(self).max_depth == old(self).max_depth,
            r == step_scalar(old(self).md(), old(self).model()).ok,
            r ==> final(self).model() == step_scalar(old(self).md(), old(self).model()),
            !r ==> *final(self) == *old(self),
    {
        if self.stack.len() == 0 {
            if self.root_seen {
                return false;
            }
            self.root_seen = true;
            return true;
        }
        let n = self.stack.len();
        let is_obj = self.stack[n - 1].kind == Kind::Obj;
        let ev = self.stack[n - 1].expect_val;
        if is_obj {
            if !ev {
                return false;
            }
            let mut f = self.stack.pop().unwrap();
            f.expect_val = false;
            self.stack.push(f);
            proof {
                assert(frames_view(self.stack@) =~= step_scalar(
                    old(self).md(),
                    old(self).model(),
                ).stack);
            }
            true
        } else {
            self.incr();
            proof {
                assert(frames_view(self.stack@) =~= step_scalar(
                    old(self).md(),
                    old(self).model(),
                ).stack);
            }
            true
        }
    }

    /// A composite begin.
    pub fn begin(&mut self, k: Kind) -> (r: bool)
        requires
            old(self).position < usize::MAX,
            old(self).length < usize::MAX,
            old(self).stack@.len() > 0 ==> old(self).stack@.last().kids < usize::MAX,
        ensures
            final(self).max_depth == old(self).max_depth,
            r == step_begin(old(self).md(), old(self).model(), k).ok,
            r ==> final(self).model() == step_begin(old(self).md(), old(self).model(), k),
            !r ==> *final(self) == *old(self),
    {
        if self.stack.len() == 0 {
            if self.root_seen {
                return false;
            }
            self.stack.push(
                HalfObject { kind: k, expect_val: false, kids: 0, start: self.position },
            );
            self.position = self.position + 1;
            proof {
                assert(frames_view(self.stack@) =~= step_begin(
                    old(self).md(),
                    old(self).model(),
                    k,
                ).stack);
            }
            return true;
        }
        let n = self.stack.len();
        let is_obj = self.stack[n - 1].kind == Kind::Obj;
        let ev = self.stack[n - 1].expect_val;
        if is_obj && !ev {
            return false;
        }
        if is_obj {
            let mut f = self.stack.pop().unwrap();
            f.expect_val = false;
            self.stack.push(f);
        } else {
            self.incr();
            proof {
                assert(frames_view(self.stack@).len() == self.stack@.len());
                assert(frames_view(old(self).stack@).len() == old(self).stack@.len());
                assert(self.stack@.len() == old(self).stack@.len());
            }
        }
        self.stack.push(HalfObject { kind: k, expect_val: false, kids: 0, start: self.position });
        self.position = self.position + 1;
        proof {
            assert(frames_view(self.stack@) =~= step_begin(
                old(self).md(),
                old(self).model(),
                k,
            ).stack);
        }
        true
    }

    /// A composite end: completes the innermost node and records it.
    pub fn end(&mut self, k: Kind) -> (r: bool)
        requires
            old(self).position < usize::MAX,
            old(self).length < usize::MAX,
            old(self).stack@.len() > 0 ==> old(self).stack@.last().kids < usize::MAX,
        ensures
            final(self).max_depth == old(self).max_depth,
            r == step_end(old(self).md(), old(self).model(), k).ok,
            r ==> final(self).model() == step_end(old(self).md(), old(self).model(), k),
            !r ==> *final(self) == *old(self),
    {
        if self.stack.len() == 0 {
            return false;
        }
        let n = self.stack.len();
        let matches_kind = self.stack[n - 1].kind == k;
        let ev = self.stack[n - 1].expect_val;
        let is_obj = self.stack[n - 1].kind == Kind::Obj;
        if !matches_kind || (is_obj && ev) {
            return false;
        }
        let f = self.stack.pop().unwrap();
        let d = self.stack.len();
        let tracked_node = !self.skip();
        let rlen = if f.kids > 0 {
            f.kids + 1
        } else {
            0
        };
        let rec = Object { depth: d, length: rlen, start: f.start, end: self.position };
        if tracked_node && f.kids > 0 {
            self.length = self.length + 1;
        }
        let at_lim = match self.max_depth {
            None => false,
            Some(m) => d > 0 && d - 1 == m,
        };
        if tracked_node && at_lim {
            self.exceeded.push(rec);
        } else if tracked_node && f.kids > 0 {
            self.objects.push(rec);
        }
        if self.stack.len() == 0 {
            self.root_seen = true;
        }
        self.position = self.position + 1;
        proof {
            let st = step_end(old(self).md(), old(self).model(), k);
            assert(frames_view(self.stack@) =~= st.stack);
            assert(recs_view(self.exceeded@) =~= st.exceeded);
            assert(recs_view(self.objects@) =~= st.queue);
        }
        true
    }
}

/// The metrics pass over a whole stream: rejects streams that are not one
/// complete document, and otherwise returns the projected line total, the
/// nodes beyond the depth limit, and the eviction queue.
pub fn count(opts: Opts, events: &Vec<Event>) -> (r: Result<Metrics, Error>)
    requires
        events@.len() < usize::MAX,
    ensures
        ({
            let sv = views(events@);
            match r {
                Ok(m) => valid(sv) && wf_metrics(m, c_run(opts.md(), sv)),
                Err(e) => e == Error::MalformedStream && !valid(sv),
            }
        }),
{
    let ghost sv = views(events@);
    let mut c = Counter::new(opts.max_depth);
    proof {
        assert(sv.subrange(0, 0) =~= Seq::<EvV>::empty());
    }
    let mut i: usize = 0;
    while i < events.len()
        invariant
            i <= events@.len(),
            events@.len() < usize::MAX,
            sv == views(events@),
            c.max_depth == opts.max_depth,
            c.model() == c_run(opts.md(), sv.subrange(0, i as int)),
        decreases events@.len() - i,
    {
        proof {
            lemma_c_run_bounds(opts.md(), sv.subrange(0, i as int));
            assert(sv.subrange(0, i as int + 1).drop_last() =~= sv.subrange(0, i as int));
            assert(sv.subrange(0, i as int + 1).last() == sv[i as int]);
            if c.stack.len() > 0 {
                assert(c.model().stack[c.model().stack.len() - 1].kids + 1 <= c.model().total);
                assert(c.model().stack.last() == c.model().stack[c.model().stack.len() - 1]);
                assert(c.stack@.last()@ == c.model().stack.last());
            }
        }
        let ev = &events[i];
        let ok = match ev {
            Event::BeginArray => c.begin(Kind::Arr),
            Event::BeginObject => c.begin(Kind::Obj),
            Event::EndArray => c.end(Kind::Arr),
            Event::EndObject => c.end(Kind::Obj),
            Event::Key(_) => c.key(),
            Event::Scalar(_) => c.scalar(),
        };
        proof {
            assert(c_run(opts.md(), sv.subrange(0, i as int + 1)) == c_step(
                opts.md(),
                c_run(opts.md(), sv.subrange(0, i as int)),
                sv[i as int],
            ));
        }
        if !ok {
            proof {
                assert(!c_run(opts.md(), sv.subrange(0, i as int + 1)).ok);
                lemma_c_run_fail_sticky(opts.md(), sv, i as int + 1);
                lemma_valid_md(opts.md(), sv);
            }
            return Err(Error::MalformedStream);
        }
        i = i + 1;
    }
    proof {
        assert(sv.subrange(0, events@.len() as int) =~= sv);
        lemma_valid_md(opts.md(), sv);
    }
    if c.stack.len() > 0 || !c.root_seen {
        return Err(Error::MalformedStream);
    }
    Ok(Metrics { length: c.length, exceeded: c.exceeded, objects: c.objects })
}

} // verus!
