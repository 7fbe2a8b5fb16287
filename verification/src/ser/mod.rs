//! The bounded-rendering pipeline: options and the top-level entry points.
pub mod count;
pub mod exclude;
pub mod print;

use vstd::prelude::*;
use vstd::string::StringExecFns;
use vstd::string::StrSliceExecFns;

use crate::event::{line_views, out_views, views, Error, Event, Line, OutEvent};
use crate::model::{
    a_done, a_run, base_run, c_run, chosen, ends_of, kid_sum, lemma_c_run_total_eq,
    lemma_valid_md, p_done, p_run, starts_of, valid, lemma_a_run_out_len,
};
use count::{count, recs_view, wf_metrics};
use exclude::{apply_excludes, select, ExcludeSet};
use print::print;

verus! {

/// The lines of the final rendering of stream `s` under the limits in
/// `opts`: the metrics pass fixes the eviction queue, the selector fixes
/// the elided ranges, and the elision pass feeds the pretty printer.
pub open spec fn rendering(opts: Opts, s: Seq<crate::event::EvV>) -> crate::model::PState {
    p_run(render_cut(opts, s).out)
}

/// The elision pass of the final rendering of `s` under `opts`.
pub open spec fn render_cut(opts: Opts, s: Seq<crate::event::EvV>) -> crate::model::AState {
    let st = c_run(opts.md(), s);
    let ch = chosen(st.exceeded, st.queue, st.total as int, opts.max_lines as int);
    a_run(starts_of(ch), ends_of(ch), s)
}

/// Rendering limits.  A `max_lines` of 0 means no line limit; a `max_depth`
/// of `None` means no depth limit.  With `max_depth` of `Some(d)`, composite
/// values at nesting depth `d` are still rendered and anything deeper is
/// elided (the root is at depth 0).
#[derive(Clone, Copy, Debug)]
pub struct Opts {
    pub max_lines: usize,
    pub max_depth: Option<usize>,
}

impl Opts {
    /// The depth limit as the model sees it.
    pub open spec fn md(self) -> Option<int> {
        match self.max_depth {
            None => None,
            Some(d) => Some(d as int),
        }
    }

    /// No limits are set: rendering is the plain pretty-printing.
    pub fn is_identity(&self) -> (r: bool)
        ensures
            r == (self.max_lines == 0 && self.max_depth is None),
    {
        self.max_lines == 0 && self.max_depth.is_none()
    }
}

/// Renders the document stream under the given limits.
///
/// A stream that is not one complete document is rejected with
/// `MalformedStream`; a complete document always renders, to exactly the
/// lines of the model's three-stage rendering.  The second pass's
/// defensive `InternalInconsistency` check is proven unreachable here: the
/// boundaries the selector produces always fit the replayed stream.
pub fn render(opts: Opts, events: &Vec<Event>) -> (r: Result<Vec<Line>, Error>)
    requires
        events@.len() < usize::MAX,
    ensures
        ({
            let sv = views(events@);
            match r {
                Ok(lines) => valid(sv) && line_views(lines@) == rendering(opts, sv).lines,
                Err(e) => e == Error::MalformedStream && !valid(sv),
            }
        }),
{
    let ghost sv = views(events@);
    let m = match count(opts, events) {
        Ok(m) => m,
        Err(e) => {
            return Err(e);
        },
    };
    proof {
        let st = c_run(opts.md(), sv);
        lemma_c_run_total_eq(opts.md(), sv);
        lemma_valid_md(opts.md(), sv);
        assert(st.stack.len() == 0);
        assert(kid_sum(st.stack) == 0);
        assert(recs_view(m.exceeded@) == st.exceeded && recs_view(m.objects@) == st.queue);
    }
    let (ex, _total) = select(opts, m);
    proof {
        crate::fidelity::law_well_formed(opts, sv);
    }
    let out = match apply_excludes(events, &ex) {
        Ok(o) => o,
        Err(_) => {
            // Unreachable: the selector's boundaries always fit the stream.
            proof {
                assert(false);
            }
            return Err(Error::InternalInconsistency);
        },
    };
    proof {
        let run = render_cut(opts, sv);
        lemma_a_run_out_len(ex.starts(), ex.ends(), sv);
        assert(out_views(out@) == run.out);
        assert(out_views(out@).len() == out@.len());
    }
    match print(&out) {
        Ok(lines) => Ok(lines),
        Err(_) => {
            // Unreachable: the elided stream is again one complete document.
            proof {
                assert(false);
            }
            Err(Error::InternalInconsistency)
        },
    }
}

/// The plain, unbounded pretty-printing of the document stream.
pub fn identity(events: &Vec<Event>) -> (r: Result<Vec<Line>, Error>)
    requires
        events@.len() < usize::MAX,
    ensures
        ({
            let pr = base_run(views(events@));
            match r {
                Ok(lines) => p_done(pr) && line_views(lines@) == pr.lines,
                Err(e) => e == Error::MalformedStream && !p_done(pr),
            }
        }),
{
    let ghost sv = views(events@);
    let mut out: Vec<OutEvent> = Vec::new();
    let mut i: usize = 0;
    proof {
        assert(out_views(out@) =~= sv.subrange(0, 0).map_values(
            |e: crate::event::EvV| crate::event::OutEvV::Ev(e),
        ));
    }
    while i < events.len()
        invariant
            i <= events@.len(),
            events@.len() < usize::MAX,
            sv == views(events@),
            out_views(out@) == sv.subrange(0, i as int).map_values(
                |e: crate::event::EvV| crate::event::OutEvV::Ev(e),
            ),
        decreases events@.len() - i,
    {
        let ghost out0 = out@;
        out.push(OutEvent::Ev(crate::event::dup_event(&events[i])));
        proof {
            assert(events@[i as int]@ == sv[i as int]);
            assert(out_views(out@) =~= out_views(out0).push(
                crate::event::OutEvV::Ev(sv[i as int]),
            ));
            assert(sv.subrange(0, i as int + 1).map_values(
                |e: crate::event::EvV| crate::event::OutEvV::Ev(e),
            ) =~= sv.subrange(0, i as int).map_values(
                |e: crate::event::EvV| crate::event::OutEvV::Ev(e),
            ).push(crate::event::OutEvV::Ev(sv[i as int])));
        }
        i = i + 1;
    }
    proof {
        assert(sv.subrange(0, events@.len() as int) =~= sv);
    }
    print(&out)
}

/// Every character is the digit zero.
pub open spec fn all_zeros(s: Seq<char>) -> bool {
    forall|i: int| 0 <= i < s.len() ==> s[i] == '0'
}

/// Does `s` spell the number zero, the way a decimal command-line argument
/// would (an optional leading plus sign, then only zero digits)?
pub open spec fn spec_zero_arg(s: Seq<char>) -> bool {
    if s.len() > 0 && s[0] == '+' {
        s.len() > 1 && all_zeros(s.subrange(1, s.len() as int))
    } else {
        s.len() > 0 && all_zeros(s)
    }
}

/// Validates a line-limit argument: a string that parses to zero is
/// rejected, anything else (including non-numbers, left to later parsing)
/// is accepted.
pub fn non_zero(arg: String) -> (r: Result<(), String>)
    ensures
        r is Ok <==> !spec_zero_arg(arg@),
        r matches Err(m) ==> m@ == "maximum length must be greater than 0"@,
{
    let s = arg.as_str();
    let n = s.unicode_len();
    let start: usize = if n > 0 && s.get_char(0) == '+' {
        1
    } else {
        0
    };
    if n == start {
        return Ok(());
    }
    let mut i: usize = start;
    while i < n
        invariant
            start <= i <= n,
            start <= 1,
            s@ == arg@,
            n == s@.len(),
            start == 1 ==> (n > 0 && s@[0] == '+'),
            start == 0 ==> !(s@.len() > 0 && s@[0] == '+'),
            n > start,
            forall|j: int| start <= j < i ==> s@[j] == '0',
        decreases n - i,
    {
        let ch = s.get_char(i);
        if ch != '0' {
            proof {
                if start == 1 {
                    let body = arg@.subrange(1, arg@.len() as int);
                    assert(body[i - 1] == arg@[i as int]);
                    assert(body[i - 1] != '0');
                    assert(all_zeros(body) ==> body[i - 1] == '0');
                } else {
                    assert(arg@[i as int] != '0');
                    assert(all_zeros(arg@) ==> arg@[i as int] == '0');
                }
                assert(!spec_zero_arg(arg@));
            }
            return Ok(());
        }
        i = i + 1;
    }
    proof {
        if start == 1 {
            let body = arg@.subrange(1, arg@.len() as int);
            assert forall|j: int| 0 <= j < body.len() implies body[j] == '0' by {
                assert(body[j] == arg@[j + 1]);
            }
            assert(all_zeros(body));
        } else {
            assert forall|j: int| 0 <= j < arg@.len() implies arg@[j] == '0' by {}
            assert(all_zeros(arg@));
        }
        assert(spec_zero_arg(arg@));
    }
    Err(String::from_str("maximum length must be greater than 0"))
}

} // verus!
