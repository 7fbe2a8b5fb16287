//! The base pretty printer: turns a stream of pass-two events into indented
//! lines, two-space-per-level style with elided subtrees as a placeholder
//! token.
use vstd::prelude::*;
use vstd::string::StringExecFns;

use crate::event::{out_views, Error, Line, OutEvent, Event, EvV, Kind, LineV, OutEvV};
use crate::model::{
    colon_tok, comma_tok, close_tok, lemma_p_run_bounds, lemma_p_run_fail_sticky, open_tok,
    p_close, p_done, p_init, p_run, p_step, p_value, placeholder_tok, PFrame, PState,
};

verus! {

/// An open composite during printing.
#[derive(Clone, Copy, Debug)]
pub struct PHalf {
    pub kind: Kind,
    pub expect_val: bool,
    pub kids: usize,
}

impl View for PHalf {
    type V = PFrame;

    open spec fn view(&self) -> PFrame {
        PFrame { kind: self.kind, expect_val: self.expect_val, kids: self.kids as nat }
    }
}

pub open spec fn pframes_view(s: Seq<PHalf>) -> Seq<PFrame> {
    s.map_values(|f: PHalf| f@)
}

pub open spec fn opt_frame_view(o: Option<PHalf>) -> Option<PFrame> {
    match o {
        None => None,
        Some(f) => Some(f@),
    }
}

/// The state of the printing pass.
#[derive(Debug)]
pub struct Printer {
    pub stack: Vec<PHalf>,
    pub lines: Vec<Line>,
    pub root_seen: bool,
}

impl Printer {
    /// The printer machine state this printer is in.
    pub open spec fn model(self) -> PState {
        PState {
            ok: true,
            root_seen: self.root_seen,
            stack: pframes_view(self.stack@),
            lines: crate::event::line_views(self.lines@),
        }
    }

    pub fn new() -> (r: Printer)
        ensures
            r.model() == p_init(),
    {
        let r = Printer { stack: Vec::new(), lines: Vec::new(), root_seen: false };
        proof {
            assert(pframes_view(r.stack@) =~= Seq::<PFrame>::empty());
            assert(crate::event::line_views(r.lines@) =~= Seq::<LineV>::empty());
        }
        r
    }

    /// Appends `txt` to the final line.
    fn append_last(&mut self, txt: &str)
        requires
            old(self).lines@.len() > 0,
        ensures
            final(self).stack == old(self).stack,
            final(self).root_seen == old(self).root_seen,
            crate::event::line_views(final(self).lines@) == crate::model::append_last(
                crate::event::line_views(old(self).lines@),
                txt@,
            ),
    {
        let mut last = self.lines.pop().unwrap();
        last.text.append(txt);
        self.lines.push(last);
        proof {
            assert(crate::event::line_views(self.lines@) =~= crate::model::append_last(
                crate::event::line_views(old(self).lines@),
                txt@,
            ));
        }
    }

    /// A value token in the current context (see the machine's `p_value`).
    fn value(&mut self, txt: String, open_frame: Option<PHalf>) -> (r: bool)
        requires
            old(self).stack@.len() > 0 ==> old(self).stack@.last().kids < usize::MAX,
        ensures
            r == p_value(old(self).model(), txt@, opt_frame_view(open_frame)).ok,
            r ==> final(self).model() == p_value(
                old(self).model(),
                txt@,
                opt_frame_view(open_frame),
            ),
            !r ==> *final(self) == *old(self),
    {
        if self.stack.len() == 0 {
            if self.root_seen {
                return false;
            }
            if open_frame.is_none() {
                self.root_seen = true;
            }
            self.lines.push(Line { indent: 0, text: txt });
            if let Some(nf) = open_frame {
                self.stack.push(nf);
            }
            proof {
                let st = p_value(old(self).model(), txt@, opt_frame_view(open_frame));
                assert(pframes_view(self.stack@) =~= st.stack);
                assert(crate::event::line_views(self.lines@) =~= st.lines);
            }
            return true;
        }
        let n = self.stack.len();
        let is_obj = self.stack[n - 1].kind == Kind::Obj;
        if is_obj {
            let ev = self.stack[n - 1].expect_val;
            if !ev || self.lines.len() == 0 {
                return false;
            }
            self.append_last(txt.as_str());
            let mut f = self.stack.pop().unwrap();
            f.expect_val = false;
            self.stack.push(f);
            if let Some(nf) = open_frame {
                self.stack.push(nf);
            }
            proof {
                let st = p_value(old(self).model(), txt@, opt_frame_view(open_frame));
                assert(pframes_view(self.stack@) =~= st.stack);
                assert(crate::event::line_views(self.lines@) =~= st.lines);
            }
            true
        } else {
            let kids = self.stack[n - 1].kids;
            if kids > 0 && self.lines.len() == 0 {
                return false;
            }
            if kids > 0 {
                self.append_last(",");
            }
            self.lines.push(Line { indent: n, text: txt });
            let mut f = self.stack.pop().unwrap();
            f.kids = f.kids + 1;
            self.stack.push(f);
            if let Some(nf) = open_frame {
                self.stack.push(nf);
            }
            proof {
                reveal_strlit(",");
                assert(","@ =~= comma_tok());
                let st = p_value(old(self).model(), txt@, opt_frame_view(open_frame));
                assert(pframes_view(self.stack@) =~= st.stack);
                assert(crate::event::line_views(self.lines@) =~= st.lines);
            }
            true
        }
    }

    /// An object member key: starts the member's line.
    fn key(&mut self, ktxt: String) -> (r: bool)
        requires
            old(self).stack@.len() > 0 ==> old(self).stack@.last().kids < usize::MAX,
        ensures
            r == p_step(old(self).model(), OutEvV::Ev(EvV::Key(ktxt@))).ok,
            r ==> final(self).model() == p_step(old(self).model(), OutEvV::Ev(EvV::Key(ktxt@))),
            !r ==> *final(self) == *old(self),
    {
        if self.stack.len() == 0 {
            return false;
        }
        let n = self.stack.len();
        let is_obj = self.stack[n - 1].kind == Kind::Obj;
        let ev = self.stack[n - 1].expect_val;
        let kids = self.stack[n - 1].kids;
        if !is_obj || ev {
            return false;
        }
        if kids > 0 && self.lines.len() == 0 {
            return false;
        }
        if kids > 0 {
            self.append_last(",");
        }
        let mut t = ktxt;
        t.append(": ");
        self.lines.push(Line { indent: n, text: t });
        let mut f = self.stack.pop().unwrap();
        f.expect_val = true;
        f.kids = f.kids + 1;
        self.stack.push(f);
        proof {
            reveal_strlit(",");
            reveal_strlit(": ");
            assert(","@ =~= comma_tok());
            assert(": "@ =~= colon_tok());
            let st = p_step(old(self).model(), OutEvV::Ev(EvV::Key(ktxt@)));
            assert(pframes_view(self.stack@) =~= st.stack);
            assert(crate::event::line_views(self.lines@) =~= st.lines);
        }
        true
    }

    /// A composite end (see the machine's `p_close`).
    fn close(&mut self, k: Kind) -> (r: bool)
        ensures
            r == p_close(old(self).model(), k).ok,
            r ==> final(self).model() == p_close(old(self).model(), k),
            !r ==> *final(self) == *old(self),
    {
        if self.stack.len() == 0 {
            return false;
        }
        let n = self.stack.len();
        let matches_kind = self.stack[n - 1].kind == k;
        let is_obj = self.stack[n - 1].kind == Kind::Obj;
        let ev = self.stack[n - 1].expect_val;
        if !matches_kind || (is_obj && ev) || self.lines.len() == 0 {
            return false;
        }
        let f = self.stack.pop().unwrap();
        let tok = match k {
            Kind::Arr => "]",
            Kind::Obj => "}",
        };
        if f.kids == 0 {
            self.append_last(tok);
        } else {
            self.lines.push(Line { indent: self.stack.len(), text: String::from_str(tok) });
        }
        if self.stack.len() == 0 {
            self.root_seen = true;
        }
        proof {
            reveal_strlit("]");
            reveal_strlit("}");
            assert("]"@ =~= close_tok(Kind::Arr));
            assert("}"@ =~= close_tok(Kind::Obj));
            let st = p_close(old(self).model(), k);
            assert(pframes_view(self.stack@) =~= st.stack);
            assert(crate::event::line_views(self.lines@) =~= st.lines);
        }
        true
    }
}

/// The base pretty printer over a whole stream of pass-two events.
pub fn print(events: &Vec<OutEvent>) -> (r: Result<Vec<Line>, Error>)
    requires
        events@.len() < usize::MAX,
    ensures
        ({
            let run = p_run(out_views(events@));
            match r {
                Ok(lines) => p_done(run) && crate::event::line_views(lines@) == run.lines,
                Err(e) => e == Error::MalformedStream && !p_done(run),
            }
        }),
{
    let ghost ov = out_views(events@);
    let mut p = Printer::new();
    proof {
        assert(ov.subrange(0, 0) =~= Seq::<OutEvV>::empty());
    }
    let mut i: usize = 0;
    while i < events.len()
        invariant
            i <= events@.len(),
            events@.len() < usize::MAX,
            ov == out_views(events@),
            p.model() == p_run(ov.subrange(0, i as int)),
        decreases events@.len() - i,
    {
        proof {
            lemma_p_run_bounds(ov.subrange(0, i as int));
            assert(ov.subrange(0, i as int + 1).drop_last() =~= ov.subrange(0, i as int));
            assert(ov.subrange(0, i as int + 1).last() == ov[i as int]);
            if p.stack.len() > 0 {
                assert(p.model().stack[p.model().stack.len() - 1].kids <= i);
                assert(p.stack@.last()@ == p.model().stack[p.model().stack.len() - 1]);
            }
        }
        let ev = &events[i];
        let ok = match ev {
            OutEvent::Placeholder => p.value(String::from_str("..."), None),
            OutEvent::Ev(Event::Scalar(s)) => p.value(s.clone(), None),
            OutEvent::Ev(Event::Key(s)) => p.key(s.clone()),
            OutEvent::Ev(Event::BeginArray) => p.value(
                String::from_str("["),
                Some(PHalf { kind: Kind::Arr, expect_val: false, kids: 0 }),
            ),
            OutEvent::Ev(Event::BeginObject) => p.value(
                String::from_str("{"),
                Some(PHalf { kind: Kind::Obj, expect_val: false, kids: 0 }),
            ),
            OutEvent::Ev(Event::EndArray) => p.close(Kind::Arr),
            OutEvent::Ev(Event::EndObject) => p.close(Kind::Obj),
        };
        proof {
            reveal_strlit("...");
            reveal_strlit("[");
            reveal_strlit("{");
            assert("..."@ =~= placeholder_tok());
            assert("["@ =~= open_tok(Kind::Arr));
            assert("{"@ =~= open_tok(Kind::Obj));
            assert(p_run(ov.subrange(0, i as int + 1)) == p_step(
                p_run(ov.subrange(0, i as int)),
                ov[i as int],
            ));
        }
        if !ok {
            proof {
                assert(!p_run(ov.subrange(0, i as int + 1)).ok);
                lemma_p_run_fail_sticky(ov, i as int + 1);
            }
            return Err(Error::MalformedStream);
        }
        i = i + 1;
    }
    proof {
        assert(ov.subrange(0, events@.len() as int) =~= ov);
    }
    if p.stack.len() > 0 || !p.root_seen {
        return Err(Error::MalformedStream);
    }
    Ok(p.lines)
}

} // verus!
