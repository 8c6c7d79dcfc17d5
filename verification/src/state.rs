//! The trace store: flows, threads, event logs, hot coordinates, the
//! call-stack tree, and the navigation and scope-resolution queries.

use crate::lisp_pprinter::all_flat;
use crate::lisp_pprinter::style_lisp_form;
use crate::lisp_pprinter::spec_form_tokens;
use crate::lisp_pprinter::spec_style_fix;
use crate::lisp_pprinter::spec_symb_style;
use crate::lisp_pprinter::tviews;
use crate::lisp_pprinter::PrintToken;
use crate::lisp_reader::fview;
use crate::lisp_reader::lex_le;
use crate::lisp_reader::read_str;
use crate::lisp_reader::spec_read_str;
use crate::lisp_reader::str_eq;
use crate::lisp_reader::str_le;
use crate::lisp_reader::PrintableLispForm;
use crate::coord_in_scope;
use crate::is_coord_in_scope;
use crate::Coord;
use crate::util_types::CallStackTree;
use crate::util_types::SortedForms;
use vstd::prelude::*;

verus! {

/// One logical debugging session.
pub type FlowId = i64;

/// One registered source form within a flow.
pub type FormId = i64;

/// One stream of control-flow events within a flow.
pub type ThreadId = u16;

/// The target width every registered form is laid out to.
pub const FORM_LAYOUT_WIDTH: usize = 40;

/// A registered source form: its flow-scoped id, namespace, registration
/// timestamp, and the width-fitted print tokens of its source text.
/// Immutable once created.
#[derive(Debug, Clone)]
pub struct Form {
    pub print_tokens: Vec<PrintToken>,
    pub form_id: FormId,
    pub timestamp: u64,
    pub ns: String,
}

impl Form {
    /// Parses and lays out one source form. Unparseable text is a parse
    /// error, reported as `None`; nothing is stored in that case.
    pub fn new(form_id: FormId, ns: String, form_str: String, timestamp: u64) -> (r: Option<
        Form,
    >)
        ensures
            match spec_read_str(form_str@) {
                Option::None => r is None,
                Option::Some(fv) => {
                    &&& r matches Some(form)
                    &&& form.form_id == form_id
                    &&& form.timestamp == timestamp
                    &&& form.ns == ns
                    &&& tviews(form.print_tokens@) == spec_form_tokens(
                        spec_style_fix(spec_symb_style(fv), FORM_LAYOUT_WIDTH as nat),
                        0,
                    )
                    &&& all_flat(tviews(form.print_tokens@))
                },
            },
    {
        match read_str(form_str.as_str()) {
            Option::None => None,
            Option::Some(mut form) => {
                let tokens = style_lisp_form(&mut form, FORM_LAYOUT_WIDTH);
                Some(Form { print_tokens: tokens, form_id, ns, timestamp })
            },
        }
    }
}

/// An expression result: which coordinate of which form produced which
/// textual result, and whether it completes the enclosing function body.
#[derive(Debug, PartialEq)]
pub struct ExprTrace {
    pub form_id: FormId,
    pub result: String,
    pub coord: Coord,
    pub timestamp: u64,
    pub is_outer_form: bool,
}

/// Two expression events carrying the same data.
pub open spec fn expr_trace_eq(a: ExprTrace, b: ExprTrace) -> bool {
    &&& a.form_id == b.form_id
    &&& a.result@ == b.result@
    &&& a.coord@ == b.coord@
    &&& a.timestamp == b.timestamp
    &&& a.is_outer_form == b.is_outer_form
}

impl Clone for ExprTrace {
    /// A clone carries the same data.
    fn clone(&self) -> (res: Self)
        ensures
            expr_trace_eq(res, *self),
    {
        ExprTrace {
            form_id: self.form_id,
            result: self.result.clone(),
            coord: crate::lisp_reader::clone_coord(&self.coord),
            timestamp: self.timestamp,
            is_outer_form: self.is_outer_form,
        }
    }
}

impl ExprTrace {
    /// An expression event from its parts.
    pub fn new(
        form_id: FormId,
        result: String,
        coord: Vec<u16>,
        is_outer_form: bool,
        timestamp: u64,
    ) -> (r: Self)
        ensures
            r.form_id == form_id,
            r.result == result,
            r.coord == coord,
            r.is_outer_form == is_outer_form,
            r.timestamp == timestamp,
    {
        Self { form_id, result, coord, is_outer_form, timestamp }
    }
}

/// A function call: the called function's namespace and name, and a
/// textual rendering of its argument list.
#[derive(Debug, Clone, PartialEq)]
pub struct FnCallTrace {
    pub form_id: FormId,
    pub fn_name: String,
    pub fn_ns: String,
    pub args_vec: String,
    pub timestamp: u64,
}

impl FnCallTrace {
    /// A call event from its parts.
    pub fn new(
        form_id: FormId,
        fn_ns: String,
        fn_name: String,
        args_vec: String,
        timestamp: u64,
    ) -> (r: Self)
        ensures
            r.form_id == form_id,
            r.fn_ns == fn_ns,
            r.fn_name == fn_name,
            r.args_vec == args_vec,
            r.timestamp == timestamp,
    {
        Self { form_id, fn_name, fn_ns, args_vec, timestamp }
    }
}

/// One entry of a thread's ordered event log.
#[derive(Debug, PartialEq)]
pub enum ExecTrace {
    ExprTrace(ExprTrace),
    FnCallTrace(FnCallTrace),
}

/// A variable binding: the symbol, its textual value, and the coordinate
/// at which the binding becomes visible.
#[derive(Debug, Clone)]
pub struct BindTrace {
    pub form_id: FormId,
    pub symbol: String,
    pub value: String,
    pub coord: Coord,
    pub timestamp: u64,
}

impl BindTrace {
    /// A binding event from its parts.
    pub fn new(
        form_id: FormId,
        symbol: String,
        value: String,
        coord: Vec<u16>,
        timestamp: u64,
    ) -> (r: Self)
        ensures
            r.form_id == form_id,
            r.symbol == symbol,
            r.value == value,
            r.coord == coord,
            r.timestamp == timestamp,
    {
        Self { form_id, symbol, value, coord, timestamp }
    }
}

/// Which panel of a flow a client is looking at.
#[derive(Debug, PartialEq)]
pub enum FlowTool {
    Code,
    CallStack,
}

/// Which top-level tool a client is looking at.
#[derive(Debug, PartialEq)]
pub enum DebuggerTool {
    Flows,
    Refs,
    Taps,
    Timeline,
}

/// A thread's ordered event log with its navigation cursor.
#[derive(Debug)]
pub struct FlowExecution {
    pub traces: Vec<ExecTrace>,
    pub curr_trace_idx: usize,
}

impl FlowExecution {
    /// The cursor stays inside the log; an empty log pins it at zero.
    pub open spec fn wf(self) -> bool {
        self.curr_trace_idx < self.traces@.len() || (self.traces@.len() == 0
            && self.curr_trace_idx == 0)
    }

    /// An empty log with the cursor at zero.
    pub fn new() -> (r: Self)
        ensures
            r.wf(),
            r.traces@.len() == 0,
            r.curr_trace_idx == 0,
    {
        Self { traces: Vec::new(), curr_trace_idx: 0 }
    }

    /// Appends a call event to the log.
    pub fn add_fn_call_trace(&mut self, trace: FnCallTrace)
        ensures
            final(self).traces@ == old(self).traces@.push(ExecTrace::FnCallTrace(trace)),
            final(self).curr_trace_idx == old(self).curr_trace_idx,
            old(self).wf() ==> final(self).wf(),
    {
        self.traces.push(ExecTrace::FnCallTrace(trace));
    }

    /// Appends an expression event to the log.
    pub fn add_expr_trace(&mut self, trace: ExprTrace)
        ensures
            final(self).traces@ == old(self).traces@.push(ExecTrace::ExprTrace(trace)),
            final(self).curr_trace_idx == old(self).curr_trace_idx,
            old(self).wf() ==> final(self).wf(),
    {
        self.traces.push(ExecTrace::ExprTrace(trace));
    }

    /// Moves the cursor one event forward; a cursor on the last event,
    /// or an empty log, stays put. The cursor never leaves the log.
    pub fn step_next(&mut self)
        ensures
            final(self).traces == old(self).traces,
            final(self).curr_trace_idx == if old(self).curr_trace_idx + 1 < old(self).traces@.len() {
                old(self).curr_trace_idx + 1
            } else {
                old(self).curr_trace_idx as int
            },
            old(self).wf() ==> final(self).wf(),
    {
        if self.curr_trace_idx < self.traces.len() && self.traces.len() - self.curr_trace_idx > 1 {
            self.curr_trace_idx = self.curr_trace_idx + 1;
        }
    }

    /// Moves the cursor one event back; a cursor on the first event
    /// stays put. The cursor never leaves the log.
    pub fn step_back(&mut self)
        ensures
            final(self).traces == old(self).traces,
            final(self).curr_trace_idx == if old(self).curr_trace_idx > 0 {
                old(self).curr_trace_idx - 1
            } else {
                0int
            },
            old(self).wf() ==> final(self).wf(),
    {
        if self.curr_trace_idx > 0 {
            self.curr_trace_idx = self.curr_trace_idx - 1;
        }
    }

    /// Sets the cursor onto a chosen event, for picking one occurrence
    /// among several at one coordinate.
    pub fn jump_to(&mut self, trace_idx: &usize)
        requires
            *trace_idx < old(self).traces@.len(),
        ensures
            final(self).traces == old(self).traces,
            final(self).curr_trace_idx == *trace_idx,
            final(self).wf(),
    {
        self.curr_trace_idx = *trace_idx;
    }

    /// The event under the cursor; none when the log is empty.
    pub fn executing_trace(&self) -> (r: Option<&ExecTrace>)
        requires
            self.wf(),
        ensures
            match r {
                Some(t) => self.traces@.len() > 0 && *t == self.traces@[self.curr_trace_idx as int],
                None => self.traces@.len() == 0,
            },
    {
        if self.traces.len() == 0 {
            None
        } else {
            Some(&self.traces[self.curr_trace_idx])
        }
    }

    /// Whether the cursor stands on an expression event of exactly this
    /// form and coordinate.
    pub open spec fn coord_executing(self, form_id: FormId, coord: Seq<u16>) -> bool {
        self.traces@.len() > 0 && match self.traces@[self.curr_trace_idx as int] {
            ExecTrace::ExprTrace(et) => et.form_id == form_id && et.coord@ == coord,
            ExecTrace::FnCallTrace(c) => false,
        }
    }

    /// Whether the event under the cursor is an expression event of this
    /// form at exactly this coordinate.
    pub fn is_current_coord_executing(&self, form_id: FormId, coord: &[u16]) -> (r: bool)
        requires
            self.wf(),
        ensures
            r == self.coord_executing(form_id, coord@),
    {
        match self.executing_trace() {
            Option::Some(t) => match t {
                ExecTrace::ExprTrace(et) => {
                    if et.form_id == form_id {
                        coord_eq_slice(&et.coord, coord)
                    } else {
                        false
                    }
                },
                ExecTrace::FnCallTrace(_c) => false,
            },
            Option::None => false,
        }
    }

    /// Whether log entry `t` is an expression event of this form at this
    /// coordinate.
    pub open spec fn trace_matches_coord(t: ExecTrace, form_id: FormId, coord: Seq<u16>) -> bool {
        match t {
            ExecTrace::ExprTrace(et) => et.form_id == form_id && et.coord@ == coord,
            ExecTrace::FnCallTrace(c) => false,
        }
    }

    /// All historical expression events at exactly this coordinate, each
    /// with its log index, in log order.
    pub fn traces_for_coord(&self, form_id: FormId, coord: &[u16]) -> (r: Vec<(usize, ExprTrace)>)
        ensures
            forall|k: int, m: int| 0 <= k < m < r@.len() ==> r@[k].0 < r@[m].0,
            forall|k: int|
                0 <= k < r@.len() ==> (#[trigger] r@[k]).0 < self.traces@.len()
                    && Self::trace_matches_coord(
                    self.traces@[r@[k].0 as int],
                    form_id,
                    coord@,
                ) && (self.traces@[r@[k].0 as int] matches ExecTrace::ExprTrace(et)
                    && expr_trace_eq(r@[k].1, et)),
            forall|i: int|
                0 <= i < self.traces@.len() && Self::trace_matches_coord(
                    #[trigger] self.traces@[i],
                    form_id,
                    coord@,
                ) ==> exists|k: int| 0 <= k < r@.len() && (#[trigger] r@[k]).0 == i,
    {
        let mut r: Vec<(usize, ExprTrace)> = Vec::new();
        let mut idx: usize = 0;
        #[verifier::loop_isolation(false)]
        while idx < self.traces.len()
            invariant
                idx <= self.traces@.len(),
                forall|k: int, m: int| 0 <= k < m < r@.len() ==> r@[k].0 < r@[m].0,
                forall|k: int|
                    0 <= k < r@.len() ==> (#[trigger] r@[k]).0 < idx && Self::trace_matches_coord(
                        self.traces@[r@[k].0 as int],
                        form_id,
                        coord@,
                    ) && (self.traces@[r@[k].0 as int] matches ExecTrace::ExprTrace(et)
                        && expr_trace_eq(r@[k].1, et)),
                forall|i: int|
                    0 <= i < idx && Self::trace_matches_coord(
                        #[trigger] self.traces@[i],
                        form_id,
                        coord@,
                    ) ==> exists|k: int| 0 <= k < r@.len() && (#[trigger] r@[k]).0 == i,
            decreases self.traces@.len() - idx,
        {
            let ghost rpre = r@;
            match &self.traces[idx] {
                ExecTrace::ExprTrace(et) => {
                    if et.form_id == form_id && coord_eq_slice(&et.coord, coord) {
                        r.push((idx, et.clone()));
                        proof {
                            assert(r@[rpre.len() as int].0 == idx);
                            assert(forall|k: int| 0 <= k < rpre.len() ==> r@[k] == rpre[k]);
                        }
                    } else {
                        proof {
                            assert(!Self::trace_matches_coord(
                                self.traces@[idx as int],
                                form_id,
                                coord@,
                            ));
                        }
                    }
                },
                ExecTrace::FnCallTrace(_c) => {},
            }
            idx = idx + 1;
        }
        r
    }
}

/// How many call events a log holds.
pub open spec fn count_calls(s: Seq<ExecTrace>) -> nat
    decreases s,
{
    if s.len() == 0 {
        0
    } else {
        count_calls(s.drop_last()) + (if s.last() is FnCallTrace {
            1nat
        } else {
            0nat
        })
    }
}

/// How many outer-form expression events a log holds.
pub open spec fn count_outers(s: Seq<ExecTrace>) -> nat
    decreases s,
{
    if s.len() == 0 {
        0
    } else {
        count_outers(s.drop_last()) + (match s.last() {
            ExecTrace::ExprTrace(et) => if et.is_outer_form {
                1nat
            } else {
                0nat
            },
            ExecTrace::FnCallTrace(c) => 0nat,
        })
    }
}

/// A consistent event stream: no prefix closes more frames than it has
/// opened.
pub open spec fn stream_wf(s: Seq<ExecTrace>) -> bool {
    forall|i: int| 0 <= i <= s.len() ==> count_outers(#[trigger] s.take(i)) <= count_calls(s.take(i))
}

/// Counts never exceed the log length.
pub proof fn lemma_count_bounds(s: Seq<ExecTrace>)
    ensures
        count_calls(s) <= s.len(),
        count_outers(s) <= s.len(),
    decreases s,
{
    if s.len() > 0 {
        lemma_count_bounds(s.drop_last());
    }
}

/// Appending one event extends each count by that event's kind.
pub proof fn lemma_count_push(s: Seq<ExecTrace>, x: ExecTrace)
    ensures
        count_calls(s.push(x)) == count_calls(s) + (if x is FnCallTrace {
            1nat
        } else {
            0nat
        }),
        count_outers(s.push(x)) == count_outers(s) + (match x {
            ExecTrace::ExprTrace(et) => if et.is_outer_form {
                1nat
            } else {
                0nat
            },
            ExecTrace::FnCallTrace(c) => 0nat,
        }),
{
    assert(s.push(x).drop_last() =~= s);
    assert(s.push(x).last() == x);
}

/// A stream stays consistent when its last event is dropped, and a
/// consistent stream bounds its own counts.
pub proof fn lemma_stream_wf_push(s: Seq<ExecTrace>, x: ExecTrace)
    requires
        stream_wf(s.push(x)),
    ensures
        stream_wf(s),
        count_outers(s) <= count_calls(s),
{
    assert forall|i: int| 0 <= i <= s.len() implies count_outers(#[trigger] s.take(i))
        <= count_calls(s.take(i)) by {
        assert(s.push(x).take(i) =~= s.take(i));
        assert(count_outers(s.push(x).take(i)) <= count_calls(s.push(x).take(i)));
    }
    assert(s.take(s.len() as int) =~= s);
}

/// A consistent stream with one more closing event has an open frame.
pub proof fn lemma_stream_wf_last(s: Seq<ExecTrace>, x: ExecTrace)
    requires
        stream_wf(s.push(x)),
    ensures
        count_outers(s.push(x)) <= count_calls(s.push(x)),
{
    let n = s.push(x).len() as int;
    assert(s.push(x).take(n) =~= s.push(x));
    assert(count_outers(s.push(x).take(n)) <= count_calls(s.push(x).take(n)));
}

/// One stream of control-flow events: the ordered event log with its
/// cursor, the separate binding log, the per-form hot coordinates, the
/// call-stack tree, and the value inspector fed from the cursor.
#[derive(Debug)]
pub struct FlowThread {
    pub thread_id: ThreadId,
    pub execution: FlowExecution,
    pub call_stack_tree: Option<CallStackTree>,
    pub bind_traces: Vec<BindTrace>,
    pub hot_coords: Vec<(FormId, Vec<Coord>)>,
    pub selected_flow_tool: FlowTool,
    pub value_inspector: Option<PrintableLispForm>,
}

impl FlowThread {
    /// Whether `coord` of `form_id` has been seen executing at least
    /// once in this thread.
    pub open spec fn is_hot(self, form_id: FormId, coord: Seq<u16>) -> bool {
        exists|i: int, j: int|
            0 <= i < self.hot_coords@.len() && (#[trigger] self.hot_coords@[i]).0 == form_id && 0
                <= j < self.hot_coords@[i].1@.len() && (#[trigger] self.hot_coords@[i].1@[j])@
                == coord
    }

    /// How many call frames are open.
    pub open spec fn frames(self) -> nat {
        match self.call_stack_tree {
            Option::None => 0,
            Option::Some(cst) => cst.open_frames(),
        }
    }

    /// Thread consistency: the cursor stays in the log; the call tree
    /// exists exactly when a call has been seen, with one arena node per
    /// call; and on a consistent stream the open-frame count equals
    /// call events minus outer-form expression events.
    pub open spec fn wf(self) -> bool {
        &&& self.execution.wf()
        &&& match self.call_stack_tree {
            Option::None => count_calls(self.execution.traces@) == 0,
            Option::Some(cst) => cst.wf() && count_calls(self.execution.traces@) > 0
                && cst.node_seq().len() == count_calls(self.execution.traces@),
        }
        &&& (stream_wf(self.execution.traces@) ==> self.frames() == count_calls(
            self.execution.traces@,
        ) - count_outers(self.execution.traces@))
    }

    /// The expression event under the cursor, if the cursor stands on
    /// one.
    pub open spec fn cur_expr(self) -> Option<ExprTrace> {
        if self.execution.traces@.len() > 0 {
            match self.execution.traces@[self.execution.curr_trace_idx as int] {
                ExecTrace::ExprTrace(et) => Some(et),
                ExecTrace::FnCallTrace(c) => None,
            }
        } else {
            None
        }
    }

    /// How the value inspector follows the cursor: when the cursor
    /// stands on an expression event whose result text parses, the
    /// inspector shows that form; otherwise it keeps `before`.
    pub open spec fn inspector_follows(
        self,
        before: Option<PrintableLispForm>,
    ) -> bool {
        match self.cur_expr() {
            Option::Some(e) => match spec_read_str(e.result@) {
                Option::Some(fv) => self.value_inspector matches Some(f) && fview(f) == fv,
                Option::None => self.value_inspector == before,
            },
            Option::None => self.value_inspector == before,
        }
    }

    /// A fresh thread: empty logs, no call tree, nothing hot.
    pub fn new(thread_id: ThreadId) -> (r: Self)
        ensures
            r.wf(),
            r.thread_id == thread_id,
            r.execution.traces@.len() == 0,
            r.execution.curr_trace_idx == 0,
            r.call_stack_tree is None,
            r.bind_traces@.len() == 0,
            r.hot_coords@.len() == 0,
            r.value_inspector is None,
            forall|fid: FormId, c: Seq<u16>| !r.is_hot(fid, c),
    {
        let r = Self {
            thread_id,
            execution: FlowExecution::new(),
            call_stack_tree: None,
            bind_traces: Vec::new(),
            hot_coords: Vec::new(),
            selected_flow_tool: FlowTool::Code,
            value_inspector: None,
        };
        proof {
            assert(count_calls(r.execution.traces@) == 0);
        }
        r
    }

    /// Records an expression event: the event joins the log, its
    /// coordinate becomes permanently hot for its form, and an
    /// outer-form event closes the innermost open call frame (closing
    /// with no tree or no open frame is ignored).
    pub fn add_expr_trace(&mut self, expr_trace: ExprTrace)
        requires
            old(self).wf(),
        ensures
            final(self).wf(),
            expr_added(*old(self), *final(self), expr_trace),
    {
        let ghost t0 = *old(self);
        let ghost tr = expr_trace;
        let form_id = expr_trace.form_id;
        let coord = crate::lisp_reader::clone_coord(&expr_trace.coord);

        if expr_trace.is_outer_form {
            let mut tree: Option<CallStackTree> = None;
            core::mem::swap(&mut self.call_stack_tree, &mut tree);
            match tree {
                Option::Some(mut cst) => {
                    cst.pop();
                    self.call_stack_tree = Some(cst);
                },
                Option::None => {
                    self.call_stack_tree = None;
                },
            }
        }
        self.execution.add_expr_trace(expr_trace);

        let mut found: Option<usize> = None;
        let n = self.hot_coords.len();
        let mut i: usize = 0;
        #[verifier::loop_isolation(false)]
        while i < n
            invariant
                i <= n,
                n == self.hot_coords@.len(),
                match found {
                    Some(k) => k < i && self.hot_coords@[k as int].0 == form_id,
                    None => forall|k: int| 0 <= k < i ==> self.hot_coords@[k].0 != form_id,
                },
            decreases n - i,
        {
            if found.is_none() && self.hot_coords[i].0 == form_id {
                found = Some(i);
            }
            i = i + 1;
        }
        let ghost hot0 = self.hot_coords@;
        let ghost coordg = coord@;
        match found {
            Option::Some(k) => {
                let mut already = false;
                let m = self.hot_coords[k].1.len();
                let mut j: usize = 0;
                #[verifier::loop_isolation(false)]
                while j < m
                    invariant
                        j <= m,
                        k < self.hot_coords@.len(),
                        m == self.hot_coords@[k as int].1@.len(),
                        already == exists|q: int|
                            0 <= q < j && (#[trigger] self.hot_coords@[k as int].1@[q])@ == coord@,
                    decreases m - j,
                {
                    if coord_eq_slice(&self.hot_coords[k].1[j], coord.as_slice()) {
                        already = true;
                        proof {
                            assert((self.hot_coords@[k as int].1@[j as int])@ == coord@);
                        }
                    }
                    j = j + 1;
                }
                if !already {
                    let pair = vstd::std_specs::vec::vec_index_mut(&mut self.hot_coords, k);
                    pair.1.push(coord);
                    proof {
                        assert(self.hot_coords@ =~= hot0.update(
                            k as int,
                            (tr.form_id, self.hot_coords@[k as int].1),
                        ));
                        assert(self.hot_coords@[k as int].1@ == hot0[k as int].1@.push(
                            self.hot_coords@[k as int].1@.last(),
                        ));
                        assert((self.hot_coords@[k as int].1@.last())@ == tr.coord@);
                    }
                } else {
                    proof {
                        assert((tr.form_id, hot0[k as int].1) == hot0[k as int]);
                        assert(self.hot_coords@ =~= hot0.update(
                            k as int,
                            (tr.form_id, hot0[k as int].1),
                        ));
                        assert(self.hot_coords@[k as int].1@ == hot0[k as int].1@);
                    }
                }
            },
            Option::None => {
                let mut coords: Vec<Coord> = Vec::new();
                coords.push(coord);
                self.hot_coords.push((form_id, coords));
                proof {
                    assert(self.hot_coords@ == hot0.push(self.hot_coords@.last()));
                    assert(self.hot_coords@.last().0 == tr.form_id);
                    assert(self.hot_coords@.last().1@.len() == 1);
                    assert((self.hot_coords@.last().1@[0])@ == tr.coord@);
                }
            },
        }
        proof {
            lemma_expr_added(t0, *self, tr, hot0);
        }
    }

    /// Whether `coord` of `form_id` has been seen executing in this
    /// thread.
    pub fn is_coord_hot(&self, form_id: FormId, coord: &Coord) -> (r: bool)
        ensures
            r == self.is_hot(form_id, coord@),
    {
        let mut i: usize = 0;
        let n = self.hot_coords.len();
        #[verifier::loop_isolation(false)]
        while i < n
            invariant
                i <= n,
                n == self.hot_coords@.len(),
                forall|k: int, j: int|
                    0 <= k < i && (#[trigger] self.hot_coords@[k]).0 == form_id && 0 <= j
                        < self.hot_coords@[k].1@.len() ==> (
                    #[trigger] self.hot_coords@[k].1@[j])@ != coord@,
            decreases n - i,
        {
            if self.hot_coords[i].0 == form_id {
                let m = self.hot_coords[i].1.len();
                let mut j: usize = 0;
                #[verifier::loop_isolation(false)]
                while j < m
                    invariant
                        j <= m,
                        i < self.hot_coords@.len(),
                        m == self.hot_coords@[i as int].1@.len(),
                        forall|q: int|
                            0 <= q < j ==> (#[trigger] self.hot_coords@[i as int].1@[q])@
                                != coord@,
                    decreases m - j,
                {
                    if coord_eq_slice(&self.hot_coords[i].1[j], coord.as_slice()) {
                        return true;
                    }
                    j = j + 1;
                }
            }
            i = i + 1;
        }
        false
    }

    /// Records a call event: the event joins the log and opens a call
    /// frame; the thread's first call creates the permanent tree root.
    pub fn add_fn_call_trace(&mut self, fn_call_trace: FnCallTrace)
        requires
            old(self).wf(),
            old(self).execution.traces@.len() < usize::MAX,
        ensures
            final(self).wf(),
            call_added(*old(self), *final(self), fn_call_trace),
    {
        let ghost t0 = *old(self);
        let trace_idx = self.execution.traces.len();
        self.execution.add_fn_call_trace(fn_call_trace);
        proof {
            lemma_count_push(t0.execution.traces@, ExecTrace::FnCallTrace(fn_call_trace));
        }

        let mut tree: Option<CallStackTree> = None;
        core::mem::swap(&mut self.call_stack_tree, &mut tree);
        match tree {
            Option::None => {
                self.call_stack_tree = Some(CallStackTree::new(trace_idx));
            },
            Option::Some(mut cst) => {
                proof {
                    assert(cst.node_seq().len() == count_calls(t0.execution.traces@));
                    lemma_count_bounds(t0.execution.traces@);
                }
                cst.call(trace_idx);
                self.call_stack_tree = Some(cst);
            },
        }
        proof {
            let s1 = self.execution.traces@;
            let s0 = t0.execution.traces@;
            if stream_wf(s1) {
                lemma_stream_wf_push(s0, ExecTrace::FnCallTrace(fn_call_trace));
            }
        }
    }

    /// Records a binding event in the separate binding log.
    pub fn add_bind_trace(&mut self, bind_trace: BindTrace)
        requires
            old(self).wf(),
        ensures
            final(self).wf(),
            bind_added(*old(self), *final(self), bind_trace),
    {
        self.bind_traces.push(bind_trace);
    }
}

impl FlowThread {
    /// Whether binding `i` is visible at the cursor: the cursor stands
    /// on an expression event of the same form, the binding is not from
    /// the future, and its scope coordinate prefixes the event's.
    pub open spec fn bind_visible(self, i: int) -> bool {
        &&& 0 <= i < self.bind_traces@.len()
        &&& match self.cur_expr() {
            Option::Some(e) => {
                let b = self.bind_traces@[i];
                b.form_id == e.form_id && b.timestamp <= e.timestamp && coord_in_scope(
                    b.coord@,
                    e.coord@,
                )
            },
            Option::None => false,
        }
    }

    /// Whether binding `i` is visible and no later binding among the
    /// first `m` rebinds its symbol.
    pub open spec fn wins_upto(self, i: int, m: int) -> bool {
        &&& self.bind_visible(i)
        &&& i < m
        &&& forall|j: int|
            i < j < m && self.bind_visible(j) ==> self.bind_traces@[j].symbol@
                != self.bind_traces@[i].symbol@
    }

    /// Whether binding `i` decides its symbol's value at the cursor: it
    /// is visible and no later visible binding rebinds the symbol. This
    /// is the most recently recorded visible binding of that symbol.
    pub open spec fn bind_wins(self, i: int) -> bool {
        self.wins_upto(i, self.bind_traces@.len() as int)
    }

    /// The winning binding of each symbol visible at the cursor, one
    /// accumulator entry per symbol, in first-seen order. The ghost
    /// result names, for each entry, the index of the binding it came
    /// from.
    #[verifier::rlimit(100)]
    fn locals_dedup(&self) -> (r: (Vec<(String, String)>, Ghost<Seq<int>>))
        requires
            self.wf(),
        ensures
            r.1@.len() == r.0@.len(),
            forall|k: int|
                0 <= k < r.0@.len() ==> self.bind_wins(#[trigger] r.1@[k]) && r.0@[k].0@
                    == self.bind_traces@[r.1@[k]].symbol@ && r.0@[k].1@
                    == self.bind_traces@[r.1@[k]].value@,
            forall|i: int|
                #[trigger] self.bind_visible(i) ==> exists|k: int|
                    0 <= k < r.0@.len() && (#[trigger] r.0@[k]).0@
                        == self.bind_traces@[i].symbol@,
            forall|k1: int, k2: int| 0 <= k1 < k2 < r.0@.len() ==> r.0@[k1].0@ != r.0@[k2].0@,
    {
        let binds = &self.bind_traces;
        let mut acc: Vec<(String, String)> = Vec::new();
        let ghost mut wit: Seq<int> = Seq::empty();
        let mut m: usize = 0;
        #[verifier::loop_isolation(false)]
        while m < binds.len()
            invariant
                m <= binds@.len(),
                wit.len() == acc@.len(),
                forall|k: int|
                    0 <= k < acc@.len() ==> self.wins_upto(#[trigger] wit[k], m as int)
                        && acc@[k].0@ == self.bind_traces@[wit[k]].symbol@ && acc@[k].1@
                        == self.bind_traces@[wit[k]].value@,
                forall|i: int|
                    0 <= i < m && #[trigger] self.bind_visible(i) ==> exists|k: int|
                        0 <= k < acc@.len() && (#[trigger] acc@[k]).0@
                            == self.bind_traces@[i].symbol@,
                forall|k1: int, k2: int| 0 <= k1 < k2 < acc@.len() ==> acc@[k1].0@ != acc@[k2].0@,
            decreases binds@.len() - m,
        {
            let visible = match self.execution.executing_trace() {
                Option::Some(t) => match t {
                    ExecTrace::ExprTrace(e) => binds[m].form_id == e.form_id && binds[m].timestamp
                        <= e.timestamp && is_coord_in_scope(&binds[m].coord, &e.coord),
                    ExecTrace::FnCallTrace(_c) => false,
                },
                Option::None => false,
            };
            proof {
                assert(visible == self.bind_visible(m as int));
            }
            if visible {
                let ghost acc0 = acc@;
                let ghost wit0 = wit;
                let mut found: Option<usize> = None;
                let mut k: usize = 0;
                #[verifier::loop_isolation(false)]
                while k < acc.len()
                    invariant
                        k <= acc@.len(),
                        acc@ == acc0,
                        match found {
                            Some(kk) => kk < k && acc@[kk as int].0@
                                == self.bind_traces@[m as int].symbol@,
                            None => forall|q: int|
                                0 <= q < k ==> (#[trigger] acc@[q]).0@
                                    != self.bind_traces@[m as int].symbol@,
                        },
                    decreases acc@.len() - k,
                {
                    if found.is_none() && str_eq(acc[k].0.as_str(), binds[m].symbol.as_str()) {
                        found = Some(k);
                    }
                    k = k + 1;
                }
                let pair = (binds[m].symbol.clone(), binds[m].value.clone());
                proof {
                    assert(pair.0@ == self.bind_traces@[m as int].symbol@);
                    assert(pair.1@ == self.bind_traces@[m as int].value@);
                }
                let ghost kk_new: int = match found {
                    Some(kk) => kk as int,
                    None => acc0.len() as int,
                };
                match found {
                    Option::Some(kk) => {
                        vstd::pervasive::VecAdditionalExecFns::set(&mut acc, kk, pair);
                        proof {
                            wit = wit.update(kk as int, m as int);
                        }
                    },
                    Option::None => {
                        acc.push(pair);
                        proof {
                            wit = wit.push(m as int);
                        }
                    },
                }
                proof {
                    let sym = self.bind_traces@[m as int].symbol@;
                    assert(self.wins_upto(m as int, m + 1));
                    assert forall|k2: int| 0 <= k2 < acc@.len() implies self.wins_upto(
                        #[trigger] wit[k2],
                        m + 1,
                    ) && acc@[k2].0@ == self.bind_traces@[wit[k2]].symbol@ && acc@[k2].1@
                        == self.bind_traces@[wit[k2]].value@ by {
                        if k2 != kk_new {
                            assert(acc@[k2] == acc0[k2]);
                            assert(wit[k2] == wit0[k2]);
                            assert(self.wins_upto(wit0[k2], m as int));
                            assert(acc0[k2].0@ != sym) by {
                                match found {
                                    Some(kk) => {
                                        if k2 < kk as int {
                                            assert(acc0[k2].0@ != acc0[kk as int].0@);
                                        } else {
                                            assert(acc0[kk as int].0@ != acc0[k2].0@);
                                        }
                                    },
                                    None => {},
                                }
                            }
                            assert(self.bind_traces@[wit0[k2]].symbol@ != sym);
                        }
                    }
                    assert forall|i: int|
                        0 <= i < m + 1 && #[trigger] self.bind_visible(i) implies exists|k2: int|
                        0 <= k2 < acc@.len() && (#[trigger] acc@[k2]).0@
                            == self.bind_traces@[i].symbol@ by {
                        if i == m as int {
                            assert(acc@[kk_new].0@ == self.bind_traces@[i].symbol@);
                        } else {
                            let k2 = choose|k2: int|
                                0 <= k2 < acc0.len() && (#[trigger] acc0[k2]).0@
                                    == self.bind_traces@[i].symbol@;
                            if k2 == kk_new {
                                assert(acc@[k2].0@ == sym);
                                assert(acc0[k2].0@ == sym);
                                assert(acc@[k2].0@ == self.bind_traces@[i].symbol@);
                            } else {
                                assert(acc@[k2] == acc0[k2]);
                            }
                        }
                    }
                }
            } else {
                proof {
                    assert forall|k2: int| 0 <= k2 < acc@.len() implies self.wins_upto(
                        #[trigger] wit[k2],
                        m + 1,
                    ) by {
                        assert(self.wins_upto(wit[k2], m as int));
                        assert(!self.bind_visible(m as int));
                    }
                }
            }
            m = m + 1;
        }
        proof {
            assert(m as int == self.bind_traces@.len() as int);
            assert forall|k: int| 0 <= k < acc@.len() implies self.bind_wins(
                #[trigger] wit[k],
            ) by {
                assert(self.wins_upto(wit[k], m as int));
            }
            assert forall|i: int| #[trigger] self.bind_visible(i) implies exists|k: int|
                0 <= k < acc@.len() && (#[trigger] acc@[k]).0@
                    == self.bind_traces@[i].symbol@ by {
                assert(0 <= i < m as int);
            }
        }
        (acc, Ghost(wit))
    }

    /// Sorts symbol/value pairs by value text; the pairs themselves are
    /// only rearranged. The first ghost result names each entry's source
    /// binding; the second maps every input position to the position its
    /// entry was moved to.
    #[verifier::rlimit(100)]
    fn sort_locals(&self, arr0: Vec<(String, String)>, wit0: Ghost<Seq<int>>) -> (r: (
        Vec<(String, String)>,
        Ghost<Seq<int>>,
        Ghost<Seq<int>>,
    ))
        requires
            wit0@.len() == arr0@.len(),
            forall|k: int|
                0 <= k < arr0@.len() ==> self.bind_wins(#[trigger] wit0@[k]) && arr0@[k].0@
                    == self.bind_traces@[wit0@[k]].symbol@ && arr0@[k].1@
                    == self.bind_traces@[wit0@[k]].value@,
            forall|k1: int, k2: int| 0 <= k1 < k2 < arr0@.len() ==> arr0@[k1].0@ != arr0@[k2].0@,
        ensures
            r.1@.len() == r.0@.len(),
            r.0@.len() == arr0@.len(),
            forall|k: int|
                0 <= k < r.0@.len() ==> self.bind_wins(#[trigger] r.1@[k]) && r.0@[k].0@
                    == self.bind_traces@[r.1@[k]].symbol@ && r.0@[k].1@
                    == self.bind_traces@[r.1@[k]].value@,
            r.2@.len() == wit0@.len(),
            forall|k: int|
                0 <= k < wit0@.len() ==> 0 <= #[trigger] r.2@[k] < r.1@.len() && r.1@[r.2@[k]]
                    == wit0@[k],
            forall|k1: int, k2: int| 0 <= k1 < k2 < r.0@.len() ==> r.0@[k1].0@ != r.0@[k2].0@,
            forall|k1: int, k2: int|
                0 <= k1 < k2 < r.0@.len() ==> lex_le(r.0@[k1].1@, r.0@[k2].1@),
    {
        let mut arr = arr0;
        let ghost mut wit: Seq<int> = wit0@;
        proof {
            assert forall|k: int| 0 <= k < arr@.len() implies self.bind_wins(
                #[trigger] wit[k],
            ) && arr@[k].0@ == self.bind_traces@[wit[k]].symbol@ && arr@[k].1@
                == self.bind_traces@[wit[k]].value@ by {
                assert(self.bind_wins(wit0@[k]) && arr0@[k].0@ == self.bind_traces@[wit0@[k]].symbol@
                    && arr0@[k].1@ == self.bind_traces@[wit0@[k]].value@);
            }
        }
        let ghost mut perm: Seq<int> = Seq::new(wit0@.len(), |k: int| k);
        let n = arr.len();
        let mut i: usize = 0;
        #[verifier::loop_isolation(false)]
        while i < n
            invariant
                i <= n,
                n == arr@.len(),
                wit.len() == arr@.len(),
                forall|k: int|
                    0 <= k < arr@.len() ==> self.bind_wins(#[trigger] wit[k]) && arr@[k].0@
                        == self.bind_traces@[wit[k]].symbol@ && arr@[k].1@
                        == self.bind_traces@[wit[k]].value@,
                perm.len() == wit0@.len(),
                forall|k: int|
                    0 <= k < wit0@.len() ==> 0 <= #[trigger] perm[k] < wit.len() && wit[perm[k]]
                        == wit0@[k],
                forall|k1: int, k2: int| 0 <= k1 < k2 < arr@.len() ==> arr@[k1].0@ != arr@[k2].0@,
                forall|k1: int, k2: int|
                    0 <= k1 < k2 < i as int ==> lex_le(arr@[k1].1@, arr@[k2].1@),
                forall|k1: int, k2: int|
                    0 <= k1 < i as int && i as int <= k2 < arr@.len() ==> lex_le(
                        arr@[k1].1@,
                        arr@[k2].1@,
                    ),
            decreases n - i,
        {
            proof {
                crate::lisp_reader::lemma_lex_le_total(arr@[i as int].1@, arr@[i as int].1@);
            }
            let mut mi: usize = i;
            let mut j: usize = i + 1;
            #[verifier::loop_isolation(false)]
            while j < n
                invariant
                    i <= mi < j <= n,
                    n == arr@.len(),
                    forall|q: int|
                        i as int <= q < j as int ==> lex_le(arr@[mi as int].1@, arr@[q].1@),
                decreases n - j,
            {
                if !str_le(arr[mi].1.as_str(), arr[j].1.as_str()) {
                    proof {
                        crate::lisp_reader::lemma_lex_le_total(
                            arr@[mi as int].1@,
                            arr@[j as int].1@,
                        );
                        crate::lisp_reader::lemma_lex_le_total(
                            arr@[j as int].1@,
                            arr@[j as int].1@,
                        );
                        assert forall|q: int| i as int <= q < j + 1 implies lex_le(
                            arr@[j as int].1@,
                            arr@[q].1@,
                        ) by {
                            if q < j as int {
                                crate::lisp_reader::lemma_lex_le_trans(
                                    arr@[j as int].1@,
                                    arr@[mi as int].1@,
                                    arr@[q].1@,
                                );
                            }
                        }
                    }
                    mi = j;
                } else {
                    proof {
                        assert forall|q: int| i as int <= q < j + 1 implies lex_le(
                            arr@[mi as int].1@,
                            arr@[q].1@,
                        ) by {}
                    }
                }
                j = j + 1;
            }
            if mi != i {
                let ghost arr_pre = arr@;
                let ghost wit_pre = wit;
                let pi = (arr[i].0.clone(), arr[i].1.clone());
                let pm = (arr[mi].0.clone(), arr[mi].1.clone());
                proof {
                    assert(pi == arr@[i as int]);
                    assert(pm == arr@[mi as int]);
                }
                vstd::pervasive::VecAdditionalExecFns::set(&mut arr, i, pm);
                vstd::pervasive::VecAdditionalExecFns::set(&mut arr, mi, pi);
                proof {
                    wit = wit.update(i as int, wit_pre[mi as int]).update(
                        mi as int,
                        wit_pre[i as int],
                    );
                    assert forall|k1: int, k2: int| 0 <= k1 < k2 < arr@.len() implies arr@[k1].0@
                        != arr@[k2].0@ by {
                        let o1: int = if k1 == i as int {
                            mi as int
                        } else if k1 == mi as int {
                            i as int
                        } else {
                            k1
                        };
                        let o2: int = if k2 == i as int {
                            mi as int
                        } else if k2 == mi as int {
                            i as int
                        } else {
                            k2
                        };
                        assert(arr@[k1] == arr_pre[o1]);
                        assert(arr@[k2] == arr_pre[o2]);
                        if o1 < o2 {
                            assert(arr_pre[o1].0@ != arr_pre[o2].0@);
                        } else {
                            assert(arr_pre[o2].0@ != arr_pre[o1].0@);
                        }
                    }
                    assert forall|q: int| i as int <= q < n as int implies lex_le(
                        arr@[i as int].1@,
                        arr@[q].1@,
                    ) by {
                        assert(arr@[i as int].1@ == arr_pre[mi as int].1@);
                        if q == mi as int {
                            assert(arr@[q].1@ == arr_pre[i as int].1@);
                        } else if q == i as int {
                            assert(arr@[q].1@ == arr_pre[mi as int].1@);
                        } else {
                            assert(arr@[q].1@ == arr_pre[q].1@);
                        }
                    }
                    let perm_pre = perm;
                    perm = Seq::new(perm_pre.len(), |k: int| if perm_pre[k] == i as int {
                        mi as int
                    } else if perm_pre[k] == mi as int {
                        i as int
                    } else {
                        perm_pre[k]
                    });
                    assert forall|k: int| 0 <= k < wit0@.len() implies 0 <= #[trigger] perm[k]
                        < wit.len() && wit[perm[k]] == wit0@[k] by {
                        if perm_pre[k] == i as int {
                            assert(perm[k] == mi as int);
                            assert(wit[mi as int] == wit_pre[i as int]);
                        } else if perm_pre[k] == mi as int {
                            assert(perm[k] == i as int);
                            assert(wit[i as int] == wit_pre[mi as int]);
                        } else {
                            assert(perm[k] == perm_pre[k]);
                            assert(wit[perm[k]] == wit_pre[perm[k]]);
                        }
                    }
                }
            }
            i = i + 1;
        }
        proof {
            assert forall|k: int| 0 <= k < arr@.len() implies self.bind_wins(
                #[trigger] wit[k],
            ) && arr@[k].0@ == self.bind_traces@[wit[k]].symbol@ && arr@[k].1@
                == self.bind_traces@[wit[k]].value@ by {}
        }
        (arr, Ghost(wit), Ghost(perm))
    }

    /// The bindings visible at the cursor: for each symbol the most
    /// recently recorded visible binding wins; the pairs come sorted by
    /// value text for deterministic display.
    pub fn current_locals(&self) -> (r: (Vec<(String, String)>, Ghost<Seq<int>>))
        requires
            self.wf(),
        ensures
            r.1@.len() == r.0@.len(),
            forall|k: int|
                0 <= k < r.0@.len() ==> self.bind_wins(#[trigger] r.1@[k]) && r.0@[k].0@
                    == self.bind_traces@[r.1@[k]].symbol@ && r.0@[k].1@
                    == self.bind_traces@[r.1@[k]].value@,
            forall|i: int|
                #[trigger] self.bind_visible(i) ==> exists|k: int|
                    0 <= k < r.0@.len() && (#[trigger] r.0@[k]).0@
                        == self.bind_traces@[i].symbol@,
            forall|k1: int, k2: int| 0 <= k1 < k2 < r.0@.len() ==> r.0@[k1].0@ != r.0@[k2].0@,
            forall|k1: int, k2: int|
                0 <= k1 < k2 < r.0@.len() ==> lex_le(r.0@[k1].1@, r.0@[k2].1@),
    {
        let (acc, wit) = self.locals_dedup();
        let ghost acc0 = acc@;
        let ghost wit0 = wit@;
        let (pairs, witr, perm) = self.sort_locals(acc, wit);
        proof {
            assert forall|i: int| #[trigger] self.bind_visible(i) implies exists|k: int|
                0 <= k < pairs@.len() && (#[trigger] pairs@[k]).0@
                    == self.bind_traces@[i].symbol@ by {
                let ka = choose|k: int|
                    0 <= k < acc0.len() && (#[trigger] acc0[k]).0@
                        == self.bind_traces@[i].symbol@;
                assert(acc0[ka].0@ == self.bind_traces@[wit0[ka]].symbol@);
                let kr = perm@[ka];
                assert(witr@[kr] == wit0[ka]);
                assert(pairs@[kr].0@ == self.bind_traces@[witr@[kr]].symbol@);
                assert(pairs@[kr].0@ == self.bind_traces@[i].symbol@);
            }
        }
        (pairs, witr)
    }
}

/// Everything except the cursor and the value inspector stays as it was.
pub open spec fn nav_frame(t0: FlowThread, t1: FlowThread) -> bool {
    &&& t1.thread_id == t0.thread_id
    &&& t1.execution.traces == t0.execution.traces
    &&& t1.call_stack_tree == t0.call_stack_tree
    &&& t1.bind_traces == t0.bind_traces
    &&& t1.hot_coords == t0.hot_coords
    &&& t1.selected_flow_tool == t0.selected_flow_tool
}

impl FlowThread {
    /// Re-reads the value inspector from the event now under the cursor.
    fn update_value_inspector_with_current_trace(&mut self)
        requires
            old(self).execution.wf(),
        ensures
            nav_frame(*old(self), *final(self)),
            final(self).execution == old(self).execution,
            final(self).inspector_follows(old(self).value_inspector),
    {
        let mut result: Option<String> = None;
        match self.execution.executing_trace() {
            Option::Some(t) => match t {
                ExecTrace::ExprTrace(et) => {
                    result = Some(et.result.clone());
                },
                ExecTrace::FnCallTrace(_c) => {},
            },
            Option::None => {},
        }
        match result {
            Option::Some(value) => {
                self.update_value_inspector(value.as_str());
            },
            Option::None => {},
        }
    }

    /// Parses a result text and, when it parses, shows it in the value
    /// inspector; text that does not parse leaves the inspector alone.
    pub fn update_value_inspector(&mut self, value: &str)
        ensures
            nav_frame(*old(self), *final(self)),
            final(self).execution == old(self).execution,
            match spec_read_str(value@) {
                Option::Some(fv) => final(self).value_inspector matches Some(f) && fview(f) == fv,
                Option::None => final(self).value_inspector == old(self).value_inspector,
            },
    {
        match read_str(value) {
            Option::Some(result_pf) => {
                self.value_inspector = Some(result_pf);
            },
            Option::None => {},
        }
    }

    /// Moves the cursor one event forward (clamped to the log) and
    /// refreshes the value inspector.
    pub fn step_next(&mut self)
        requires
            old(self).wf(),
        ensures
            final(self).wf(),
            nav_frame(*old(self), *final(self)),
            final(self).execution.curr_trace_idx == if old(self).execution.curr_trace_idx + 1 < old(
                self,
            ).execution.traces@.len() {
                old(self).execution.curr_trace_idx + 1
            } else {
                old(self).execution.curr_trace_idx as int
            },
            final(self).inspector_follows(old(self).value_inspector),
    {
        self.execution.step_next();
        self.update_value_inspector_with_current_trace();
    }

    /// Moves the cursor one event back (clamped to the log) and
    /// refreshes the value inspector.
    pub fn step_back(&mut self)
        requires
            old(self).wf(),
        ensures
            final(self).wf(),
            nav_frame(*old(self), *final(self)),
            final(self).execution.curr_trace_idx == if old(self).execution.curr_trace_idx > 0 {
                old(self).execution.curr_trace_idx - 1
            } else {
                0int
            },
            final(self).inspector_follows(old(self).value_inspector),
    {
        self.execution.step_back();
        self.update_value_inspector_with_current_trace();
    }

    /// Sets the cursor onto a chosen event and refreshes the value
    /// inspector.
    pub fn jump_to(&mut self, trace_idx: &usize)
        requires
            old(self).wf(),
            *trace_idx < old(self).execution.traces@.len(),
        ensures
            final(self).wf(),
            nav_frame(*old(self), *final(self)),
            final(self).execution.curr_trace_idx == *trace_idx,
            final(self).inspector_follows(old(self).value_inspector),
    {
        self.execution.jump_to(trace_idx);
        self.update_value_inspector_with_current_trace();
    }
}

/// How a thread changes when an expression event is recorded: the event
/// is appended to the log, its coordinate joins the hot set (which
/// otherwise only ever grows), an outer-form event closes one frame,
/// and everything else stays as it was.
pub open spec fn expr_added(t0: FlowThread, t1: FlowThread, tr: ExprTrace) -> bool {
    &&& t1.thread_id == t0.thread_id
    &&& t1.execution.traces@ == t0.execution.traces@.push(ExecTrace::ExprTrace(tr))
    &&& t1.execution.curr_trace_idx == t0.execution.curr_trace_idx
    &&& t1.bind_traces == t0.bind_traces
    &&& t1.value_inspector == t0.value_inspector
    &&& t1.selected_flow_tool == t0.selected_flow_tool
    &&& (forall|fid: FormId, c: Seq<u16>| t0.is_hot(fid, c) ==> t1.is_hot(fid, c))
    &&& t1.is_hot(tr.form_id, tr.coord@)
    &&& (forall|fid: FormId, c: Seq<u16>|
        t1.is_hot(fid, c) ==> t0.is_hot(fid, c) || (fid == tr.form_id && c == tr.coord@))
    &&& (!tr.is_outer_form ==> t1.call_stack_tree == t0.call_stack_tree)
    &&& (tr.is_outer_form ==> match t0.call_stack_tree {
        Option::None => t1.call_stack_tree is None,
        Option::Some(cst0) => t1.call_stack_tree matches Some(cst1) && cst1.node_seq()
            == cst0.node_seq() && cst1.root == cst0.root && cst1.stack@ == if cst0.stack@.len()
            > 0 {
            cst0.stack@.drop_last()
        } else {
            cst0.stack@
        },
    })
}

/// How a thread changes when a call event is recorded: the event is
/// appended and a new frame opens. The thread's first call creates the
/// permanent root; every later call adds a node as a child of the
/// innermost open frame (or of the root when every frame is closed),
/// pushes that node onto the build stack, and touches nothing else in
/// the tree.
pub open spec fn call_added(t0: FlowThread, t1: FlowThread, tr: FnCallTrace) -> bool {
    &&& t1.thread_id == t0.thread_id
    &&& t1.execution.traces@ == t0.execution.traces@.push(ExecTrace::FnCallTrace(tr))
    &&& t1.execution.curr_trace_idx == t0.execution.curr_trace_idx
    &&& t1.bind_traces == t0.bind_traces
    &&& t1.hot_coords == t0.hot_coords
    &&& t1.value_inspector == t0.value_inspector
    &&& t1.selected_flow_tool == t0.selected_flow_tool
    &&& t1.frames() == t0.frames() + 1
    &&& t1.call_stack_tree matches Some(cst1) && cst1.node_seq().last().trace_idx
        == t0.execution.traces@.len()
    &&& t1.call_stack_tree matches Some(cst1) && cst1.node_seq().last().childs@.len() == 0
    &&& (match t0.call_stack_tree {
        Option::None => t1.call_stack_tree matches Some(cst1) && cst1.node_seq().len() == 1
            && cst1.root == 0 && cst1.stack@ == seq![0usize],
        Option::Some(cst0) => t1.call_stack_tree matches Some(cst1) && {
            let p = cst0.attach_point();
            &&& cst1.node_seq().len() == cst0.node_seq().len() + 1
            &&& cst1.root == cst0.root
            &&& cst1.stack@ == cst0.stack@.push(cst0.node_seq().len() as usize)
            &&& cst1.node_seq()[p].childs@ == cst0.node_seq()[p].childs@.push(
                cst0.node_seq().len() as usize,
            )
            &&& cst1.node_seq()[p].trace_idx == cst0.node_seq()[p].trace_idx
            &&& forall|i: int|
                0 <= i < cst0.node_seq().len() && i != p ==> cst1.node_seq()[i]
                    == cst0.node_seq()[i]
        },
    })
}

/// How a thread changes when a binding event is recorded: the binding
/// is appended to the binding log and everything else stays as it was.
pub open spec fn bind_added(t0: FlowThread, t1: FlowThread, tr: BindTrace) -> bool {
    &&& t1.thread_id == t0.thread_id
    &&& t1.execution == t0.execution
    &&& t1.call_stack_tree == t0.call_stack_tree
    &&& t1.bind_traces@ == t0.bind_traces@.push(tr)
    &&& t1.hot_coords == t0.hot_coords
    &&& t1.value_inspector == t0.value_inspector
    &&& t1.selected_flow_tool == t0.selected_flow_tool
}

/// Establishes `expr_added` and thread consistency after recording an
/// expression event, from the shape of the update.
proof fn lemma_expr_added(t0: FlowThread, t1: FlowThread, tr: ExprTrace, hot0: Seq<
    (FormId, Vec<Coord>),
>)
    requires
        t0.wf(),
        t1.thread_id == t0.thread_id,
        t1.execution.traces@ == t0.execution.traces@.push(ExecTrace::ExprTrace(tr)),
        t1.execution.curr_trace_idx == t0.execution.curr_trace_idx,
        t1.bind_traces == t0.bind_traces,
        t1.value_inspector == t0.value_inspector,
        t1.selected_flow_tool == t0.selected_flow_tool,
        hot0 == t0.hot_coords@,
        ({
            ||| (exists|k: int|
                0 <= k < hot0.len() && hot0[k].0 == tr.form_id && t1.hot_coords@ == hot0.update(
                    k,
                    (tr.form_id, hot0[k].1),
                ) && (exists|q: int|
                    0 <= q < hot0[k].1@.len() && (#[trigger] hot0[k].1@[q])@ == tr.coord@)
                && t1.hot_coords@[k].1@ == hot0[k].1@)
            ||| (exists|k: int|
                0 <= k < hot0.len() && hot0[k].0 == tr.form_id && t1.hot_coords@ == hot0.update(
                    k,
                    (tr.form_id, t1.hot_coords@[k].1),
                ) && t1.hot_coords@[k].1@ == hot0[k].1@.push(
                    t1.hot_coords@[k].1@.last(),
                ) && (t1.hot_coords@[k].1@.last())@ == tr.coord@)
            ||| (t1.hot_coords@.len() == hot0.len() + 1 && t1.hot_coords@ == hot0.push(
                t1.hot_coords@.last(),
            ) && t1.hot_coords@.last().0 == tr.form_id && t1.hot_coords@.last().1@.len() == 1 && (
            t1.hot_coords@.last().1@[0])@ == tr.coord@)
        }),
        (!tr.is_outer_form ==> t1.call_stack_tree == t0.call_stack_tree),
        (tr.is_outer_form ==> match t0.call_stack_tree {
            Option::None => t1.call_stack_tree is None,
            Option::Some(cst0) => t1.call_stack_tree matches Some(cst1) && cst1.wf()
                && cst1.node_seq() == cst0.node_seq() && cst1.root == cst0.root && cst1.stack@
                == if cst0.stack@.len() > 0 {
                cst0.stack@.drop_last()
            } else {
                cst0.stack@
            },
        }),
    ensures
        t1.wf(),
        expr_added(t0, t1, tr),
{
    let s0 = t0.execution.traces@;
    let s1 = t1.execution.traces@;
    let x = ExecTrace::ExprTrace(tr);
    lemma_count_push(s0, x);
    if stream_wf(s1) {
        lemma_stream_wf_push(s0, x);
        lemma_stream_wf_last(s0, x);
    }
    assert forall|fid: FormId, c: Seq<u16>| t0.is_hot(fid, c) implies t1.is_hot(fid, c) by {
        let (i, j): (int, int) = choose|i: int, j: int|
            0 <= i < hot0.len() && (#[trigger] hot0[i]).0 == fid && 0 <= j < hot0[i].1@.len() && (
            #[trigger] hot0[i].1@[j])@ == c;
        assert(t1.hot_coords@[i].0 == fid);
        assert((t1.hot_coords@[i].1@[j])@ == c);
    }
    assert(t1.is_hot(tr.form_id, tr.coord@));
    assert forall|fid: FormId, c: Seq<u16>| t1.is_hot(fid, c) implies t0.is_hot(fid, c) || (fid
        == tr.form_id && c == tr.coord@) by {
        let (i, j): (int, int) = choose|i: int, j: int|
            0 <= i < t1.hot_coords@.len() && (#[trigger] t1.hot_coords@[i]).0 == fid && 0 <= j
                < t1.hot_coords@[i].1@.len() && (#[trigger] t1.hot_coords@[i].1@[j])@ == c;
        if i < hot0.len() && j < hot0[i].1@.len() && hot0[i].1@ == t1.hot_coords@[i].1@ {
            assert(hot0[i].1@[j]@ == c);
        }
    }
}

/// One logical debugging session: its registered forms, its threads,
/// and the thread a client is looking at.
#[derive(Debug)]
pub struct Flow {
    pub flow_id: FlowId,
    pub forms: SortedForms,
    pub threads: Vec<FlowThread>,
    pub selected_thread_id: Option<ThreadId>,
    pub timestamp: u64,
}

impl Flow {
    /// Whether this flow has seen events from thread `tid`.
    pub open spec fn has_thread(self, tid: ThreadId) -> bool {
        exists|i: int| 0 <= i < self.threads@.len() && (#[trigger] self.threads@[i]).thread_id == tid
    }

    /// The position of thread `tid`.
    pub open spec fn thread_i(self, tid: ThreadId) -> int {
        choose|i: int| 0 <= i < self.threads@.len() && (#[trigger] self.threads@[i]).thread_id == tid
    }

    /// Flow consistency: thread ids are distinct and every thread is
    /// consistent; the form table is consistent.
    pub open spec fn wf(self) -> bool {
        &&& self.forms.wf()
        &&& (forall|i: int, j: int|
            0 <= i < j < self.threads@.len() ==> (#[trigger] self.threads@[i]).thread_id != (
            #[trigger] self.threads@[j]).thread_id)
        &&& (forall|i: int| 0 <= i < self.threads@.len() ==> (#[trigger] self.threads@[i]).wf())
    }

    /// The ids of the threads this flow has seen, in arrival order.
    pub fn thread_ids(&self) -> (r: Vec<ThreadId>)
        ensures
            r@.len() == self.threads@.len(),
            forall|i: int| 0 <= i < r@.len() ==> r@[i] == self.threads@[i].thread_id,
    {
        let mut r: Vec<ThreadId> = Vec::new();
        let mut i: usize = 0;
        #[verifier::loop_isolation(false)]
        while i < self.threads.len()
            invariant
                i <= self.threads@.len(),
                r@.len() == i,
                forall|j: int| 0 <= j < i ==> r@[j] == self.threads@[j].thread_id,
            decreases self.threads@.len() - i,
        {
            r.push(self.threads[i].thread_id);
            i = i + 1;
        }
        r
    }

    /// The position of thread `tid`, if this flow has seen it.
    fn find_thread(&self, tid: ThreadId) -> (r: Option<usize>)
        requires
            self.wf(),
        ensures
            match r {
                Some(i) => i < self.threads@.len() && self.threads@[i as int].thread_id == tid
                    && self.thread_i(tid) == i as int,
                None => !self.has_thread(tid),
            },
    {
        let mut i: usize = 0;
        #[verifier::loop_isolation(false)]
        while i < self.threads.len()
            invariant
                i <= self.threads@.len(),
                forall|j: int| 0 <= j < i ==> (#[trigger] self.threads@[j]).thread_id != tid,
            decreases self.threads@.len() - i,
        {
            if self.threads[i].thread_id == tid {
                proof {
                    assert(self.has_thread(tid));
                    let j = self.thread_i(tid);
                    assert(0 <= j < self.threads@.len() && self.threads@[j].thread_id == tid);
                }
                return Some(i);
            }
            i = i + 1;
        }
        None
    }
}

/// The whole debugger: every flow seen so far and the flow a client is
/// looking at. State only ever grows; nothing is evicted.
#[derive(Debug)]
pub struct DebuggerState {
    pub flows: Vec<Flow>,
    pub selected_flow_id: Option<FlowId>,
    pub selected_tool: DebuggerTool,
    pub total_trace_count: usize,
}

impl DebuggerState {
    /// Whether a flow with this id exists.
    pub open spec fn has_flow(self, id: FlowId) -> bool {
        exists|i: int| 0 <= i < self.flows@.len() && (#[trigger] self.flows@[i]).flow_id == id
    }

    /// The position of the flow with this id.
    pub open spec fn flow_i(self, id: FlowId) -> int {
        choose|i: int| 0 <= i < self.flows@.len() && (#[trigger] self.flows@[i]).flow_id == id
    }

    /// The flow with this id.
    pub open spec fn flow_of(self, id: FlowId) -> Flow {
        self.flows@[self.flow_i(id)]
    }

    /// Store consistency: flow ids are distinct and every flow is
    /// consistent.
    pub open spec fn wf(self) -> bool {
        &&& (forall|i: int, j: int|
            0 <= i < j < self.flows@.len() ==> (#[trigger] self.flows@[i]).flow_id != (
            #[trigger] self.flows@[j]).flow_id)
        &&& (forall|i: int| 0 <= i < self.flows@.len() ==> (#[trigger] self.flows@[i]).wf())
    }

    /// An empty store.
    pub fn new() -> (r: Self)
        ensures
            r.wf(),
            r.flows@.len() == 0,
            r.selected_flow_id is None,
            r.total_trace_count == 0,
    {
        Self {
            flows: Vec::new(),
            selected_flow_id: None,
            selected_tool: DebuggerTool::Flows,
            total_trace_count: 0,
        }
    }

    /// The position of the flow with this id, if it exists.
    fn find_flow(&self, id: FlowId) -> (r: Option<usize>)
        requires
            self.wf(),
        ensures
            match r {
                Some(i) => i < self.flows@.len() && self.flows@[i as int].flow_id == id
                    && self.flow_i(id) == i as int,
                None => !self.has_flow(id),
            },
    {
        let mut i: usize = 0;
        #[verifier::loop_isolation(false)]
        while i < self.flows.len()
            invariant
                i <= self.flows@.len(),
                forall|j: int| 0 <= j < i ==> (#[trigger] self.flows@[j]).flow_id != id,
            decreases self.flows@.len() - i,
        {
            if self.flows[i].flow_id == id {
                proof {
                    assert(self.has_flow(id));
                    let j = self.flow_i(id);
                    assert(0 <= j < self.flows@.len() && self.flows@[j].flow_id == id);
                }
                return Some(i);
            }
            i = i + 1;
        }
        None
    }

    /// Registers a form in a flow, creating and selecting the flow on
    /// its first mention. The first registration of a form id wins:
    /// later ones change nothing.
    pub fn add_flow_form(&mut self, flow_id: FlowId, form_id: FormId, form: Form, timestamp: u64)
        requires
            old(self).wf(),
        ensures
            final(self).wf(),
            add_flow_form_rel(*old(self), *final(self), flow_id, form_id, form),
    {
        match self.find_flow(flow_id) {
            Option::None => {
                let mut forms = SortedForms::new();
                proof {
                    assert(!forms.contains_id(form_id));
                    assert(forms.form_seq() =~= Seq::<Form>::empty());
                    assert(forms.id_seq() =~= Seq::<FormId>::empty());
                }
                forms.insert(form_id, form);
                proof {
                    assert(forms.id_seq() == Seq::<FormId>::empty().push(form_id));
                    assert(forms.id_seq()[0] == form_id);
                    assert(forms.contains_id(form_id));
                    assert(forms.id_seq().index_of(form_id) == 0);
                    assert(forms.form_seq() == Seq::<Form>::empty().push(form));
                    assert(forms.form_seq()[0] == form);
                    assert(forms.spec_get(form_id) == form);
                }
                let flow = Flow {
                    flow_id,
                    forms,
                    threads: Vec::new(),
                    selected_thread_id: None,
                    timestamp,
                };
                self.flows.push(flow);
                self.selected_flow_id = Some(flow_id);
                proof {
                    assert(self.flows@.last().flow_id == flow_id);
                    assert(self.has_flow(flow_id));
                    let j = self.flow_i(flow_id);
                    assert(0 <= j < self.flows@.len() && self.flows@[j].flow_id == flow_id);
                    assert forall|i: int| 0 <= i < old(self).flows@.len() implies (
                    #[trigger] old(self).flows@[i]).flow_id != flow_id by {
                        assert(!old(self).has_flow(flow_id));
                    }
                    assert(j == old(self).flows@.len() as int);
                }
            },
            Option::Some(fi) => {
                let ghost flows0 = self.flows@;
                let fl = vstd::std_specs::vec::vec_index_mut(&mut self.flows, fi);
                fl.forms.insert(form_id, form);
                proof {
                    if flows0[fi as int].forms.contains_id(form_id) {
                        assert(self.flows@ =~= flows0);
                    }
                    assert(self.flows@ == flows0.update(fi as int, self.flows@[fi as int]));
                }
            },
        }
    }

    /// Records an expression event in a flow's thread, creating and
    /// selecting the thread on its first event. An event for an
    /// unregistered flow is dropped.
    pub fn add_exec_trace(&mut self, flow_id: FlowId, thread_id: ThreadId, expr_trace: ExprTrace)
        requires
            old(self).wf(),
        ensures
            final(self).wf(),
            exec_trace_rel(*old(self), *final(self), flow_id, thread_id, expr_trace),
    {
        match self.find_flow(flow_id) {
            Option::None => {},
            Option::Some(fi) => {
                let ghost flows0 = self.flows@;
                let fl = vstd::std_specs::vec::vec_index_mut(&mut self.flows, fi);
                match fl.find_thread(thread_id) {
                    Option::None => {
                        let mut thread = FlowThread::new(thread_id);
                        let ghost t0g = thread;
                        thread.add_expr_trace(expr_trace);
                        let ghost t1g = thread;
                        fl.threads.push(thread);
                        fl.selected_thread_id = Some(thread_id);
                        proof {
                            assert(fresh_thread(t0g, thread_id));
                            assert(fl.threads@.last() == t1g);
                            assert(expr_added(t0g, t1g, expr_trace));
                        }
                    },
                    Option::Some(ti) => {
                        let ghost threads0 = fl.threads@;
                        let th = vstd::std_specs::vec::vec_index_mut(&mut fl.threads, ti);
                        th.add_expr_trace(expr_trace);
                        proof {
                            assert(fl.threads@ == threads0.update(ti as int, fl.threads@[ti as int]));
                        }
                    },
                }
                proof {
                    assert(self.flows@ == flows0.update(fi as int, self.flows@[fi as int]));
                }
            },
        }
    }

    /// Records a call event in a flow's thread, creating and selecting
    /// the thread on its first event. An event for an unregistered flow
    /// is dropped.
    pub fn add_fn_call_trace(
        &mut self,
        flow_id: FlowId,
        thread_id: ThreadId,
        fn_call_trace: FnCallTrace,
    )
        requires
            old(self).wf(),
            old(self).has_flow(flow_id) && old(self).flow_of(flow_id).has_thread(thread_id)
                ==> old(self).flow_of(flow_id).threads@[old(self).flow_of(flow_id).thread_i(
                thread_id,
            )].execution.traces@.len() < usize::MAX,
        ensures
            final(self).wf(),
            call_trace_rel(*old(self), *final(self), flow_id, thread_id, fn_call_trace),
    {
        match self.find_flow(flow_id) {
            Option::None => {},
            Option::Some(fi) => {
                let ghost flows0 = self.flows@;
                let fl = vstd::std_specs::vec::vec_index_mut(&mut self.flows, fi);
                match fl.find_thread(thread_id) {
                    Option::None => {
                        let mut thread = FlowThread::new(thread_id);
                        let ghost t0g = thread;
                        thread.add_fn_call_trace(fn_call_trace);
                        let ghost t1g = thread;
                        fl.threads.push(thread);
                        fl.selected_thread_id = Some(thread_id);
                        proof {
                            assert(fresh_thread(t0g, thread_id));
                            assert(fl.threads@.last() == t1g);
                            assert(call_added(t0g, t1g, fn_call_trace));
                        }
                    },
                    Option::Some(ti) => {
                        let ghost threads0 = fl.threads@;
                        let th = vstd::std_specs::vec::vec_index_mut(&mut fl.threads, ti);
                        th.add_fn_call_trace(fn_call_trace);
                        proof {
                            assert(fl.threads@ == threads0.update(ti as int, fl.threads@[ti as int]));
                        }
                    },
                }
                proof {
                    assert(self.flows@ == flows0.update(fi as int, self.flows@[fi as int]));
                }
            },
        }
    }

    /// Records a binding event in a flow's thread, creating and
    /// selecting the thread on its first event. An event for an
    /// unregistered flow is dropped.
    pub fn add_bind_trace(&mut self, flow_id: FlowId, thread_id: ThreadId, bind_trace: BindTrace)
        requires
            old(self).wf(),
        ensures
            final(self).wf(),
            bind_trace_rel(*old(self), *final(self), flow_id, thread_id, bind_trace),
    {
        match self.find_flow(flow_id) {
            Option::None => {},
            Option::Some(fi) => {
                let ghost flows0 = self.flows@;
                let fl = vstd::std_specs::vec::vec_index_mut(&mut self.flows, fi);
                match fl.find_thread(thread_id) {
                    Option::None => {
                        let mut thread = FlowThread::new(thread_id);
                        let ghost t0g = thread;
                        thread.add_bind_trace(bind_trace);
                        let ghost t1g = thread;
                        fl.threads.push(thread);
                        fl.selected_thread_id = Some(thread_id);
                        proof {
                            assert(fresh_thread(t0g, thread_id));
                            assert(fl.threads@.last() == t1g);
                            assert(bind_added(t0g, t1g, bind_trace));
                        }
                    },
                    Option::Some(ti) => {
                        let ghost threads0 = fl.threads@;
                        let th = vstd::std_specs::vec::vec_index_mut(&mut fl.threads, ti);
                        th.add_bind_trace(bind_trace);
                        proof {
                            assert(fl.threads@ == threads0.update(ti as int, fl.threads@[ti as int]));
                        }
                    },
                }
                proof {
                    assert(self.flows@ == flows0.update(fi as int, self.flows@[fi as int]));
                }
            },
        }
    }

    /// The ids of all flows, in arrival order.
    pub fn flows_ids(&self) -> (r: Vec<FlowId>)
        ensures
            r@.len() == self.flows@.len(),
            forall|i: int| 0 <= i < r@.len() ==> r@[i] == self.flows@[i].flow_id,
    {
        let mut r: Vec<FlowId> = Vec::new();
        let mut i: usize = 0;
        #[verifier::loop_isolation(false)]
        while i < self.flows.len()
            invariant
                i <= self.flows@.len(),
                r@.len() == i,
                forall|j: int| 0 <= j < i ==> r@[j] == self.flows@[j].flow_id,
            decreases self.flows@.len() - i,
        {
            r.push(self.flows[i].flow_id);
            i = i + 1;
        }
        r
    }

    /// Selects a flow for display.
    pub fn select_flow(&mut self, flow_id: FlowId)
        ensures
            final(self).flows == old(self).flows,
            final(self).selected_flow_id == Some(flow_id),
            final(self).selected_tool == old(self).selected_tool,
            final(self).total_trace_count == old(self).total_trace_count,
    {
        self.selected_flow_id = Some(flow_id);
    }

    /// The selected flow, if one is selected and exists.
    pub fn selected_flow(&self) -> (r: Option<&Flow>)
        requires
            self.wf(),
        ensures
            match r {
                Some(f) => self.selected_flow_id matches Some(id) && self.has_flow(id) && *f
                    == self.flow_of(id),
                None => match self.selected_flow_id {
                    Some(id) => !self.has_flow(id),
                    None => true,
                },
            },
    {
        match self.selected_flow_id {
            Option::Some(id) => {
                match self.find_flow(id) {
                    Option::Some(i) => Some(&self.flows[i]),
                    Option::None => None,
                }
            },
            Option::None => None,
        }
    }
}

/// How the store changes when a form is registered: an unknown flow is
/// created (holding just this form) and selected; in a known flow the
/// form table grows by this form unless the form id is already present,
/// in which case nothing changes at all.
pub open spec fn add_flow_form_rel(
    s0: DebuggerState,
    s1: DebuggerState,
    flow_id: FlowId,
    form_id: FormId,
    form: Form,
) -> bool {
    &&& s1.selected_tool == s0.selected_tool
    &&& s1.total_trace_count == s0.total_trace_count
    &&& if !s0.has_flow(flow_id) {
        &&& s1.flows@.len() == s0.flows@.len() + 1
        &&& (forall|j: int| 0 <= j < s0.flows@.len() ==> s1.flows@[j] == s0.flows@[j])
        &&& s1.selected_flow_id == Some(flow_id)
        &&& {
            let nf = s1.flows@.last();
            &&& nf.flow_id == flow_id
            &&& nf.threads@.len() == 0
            &&& nf.selected_thread_id is None
            &&& nf.forms.id_seq() == Seq::<FormId>::empty().push(form_id)
            &&& nf.forms.contains_id(form_id)
            &&& nf.forms.spec_get(form_id) == form
        }
    } else {
        let i = s0.flow_i(flow_id);
        let f0 = s0.flows@[i];
        let f1 = s1.flows@[i];
        &&& s1.selected_flow_id == s0.selected_flow_id
        &&& s1.flows@.len() == s0.flows@.len()
        &&& (forall|j: int| 0 <= j < s0.flows@.len() && j != i ==> s1.flows@[j] == s0.flows@[j])
        &&& f1.flow_id == f0.flow_id
        &&& f1.threads == f0.threads
        &&& f1.selected_thread_id == f0.selected_thread_id
        &&& if f0.forms.contains_id(form_id) {
            s1.flows@ == s0.flows@
        } else {
            &&& f1.forms.id_seq() == f0.forms.id_seq().push(form_id)
            &&& f1.forms.contains_id(form_id)
            &&& f1.forms.spec_get(form_id) == form
            &&& (forall|id: FormId|
                f0.forms.contains_id(id) ==> f1.forms.contains_id(id) && f1.forms.spec_get(id)
                    == f0.forms.spec_get(id))
        }
    }
}

/// The shared shape of the three trace-recording operations: an event
/// for an unknown flow changes nothing; otherwise only the named flow
/// changes, a new thread being created and selected on its first event.
pub open spec fn trace_rel_frame(
    s0: DebuggerState,
    s1: DebuggerState,
    flow_id: FlowId,
    thread_id: ThreadId,
) -> bool {
    &&& s1.selected_flow_id == s0.selected_flow_id
    &&& s1.selected_tool == s0.selected_tool
    &&& s1.total_trace_count == s0.total_trace_count
    &&& if !s0.has_flow(flow_id) {
        s1 == s0
    } else {
        let i = s0.flow_i(flow_id);
        let f0 = s0.flows@[i];
        let f1 = s1.flows@[i];
        &&& s1.flows@.len() == s0.flows@.len()
        &&& (forall|j: int| 0 <= j < s0.flows@.len() && j != i ==> s1.flows@[j] == s0.flows@[j])
        &&& f1.flow_id == f0.flow_id
        &&& f1.forms == f0.forms
        &&& if !f0.has_thread(thread_id) {
            &&& f1.threads@.len() == f0.threads@.len() + 1
            &&& (forall|j: int| 0 <= j < f0.threads@.len() ==> f1.threads@[j] == f0.threads@[j])
            &&& f1.threads@.last().thread_id == thread_id
            &&& f1.selected_thread_id == Some(thread_id)
        } else {
            &&& f1.threads@.len() == f0.threads@.len()
            &&& (forall|j: int|
                0 <= j < f0.threads@.len() && j != f0.thread_i(thread_id) ==> f1.threads@[j]
                    == f0.threads@[j])
            &&& f1.threads@[f0.thread_i(thread_id)].thread_id == thread_id
            &&& f1.selected_thread_id == f0.selected_thread_id
        }
    }
}

/// The thread that received the event: fresh on a thread's first event.
pub open spec fn target_threads(
    s0: DebuggerState,
    s1: DebuggerState,
    flow_id: FlowId,
    thread_id: ThreadId,
) -> (FlowThread, FlowThread) {
    let i = s0.flow_i(flow_id);
    let f0 = s0.flows@[i];
    let f1 = s1.flows@[i];
    if !f0.has_thread(thread_id) {
        (f1.threads@.last(), f1.threads@.last())
    } else {
        (f0.threads@[f0.thread_i(thread_id)], f1.threads@[f0.thread_i(thread_id)])
    }
}

/// A thread as it is when created: empty logs, no tree, nothing hot.
pub open spec fn fresh_thread(t: FlowThread, thread_id: ThreadId) -> bool {
    &&& t.thread_id == thread_id
    &&& t.execution.traces@.len() == 0
    &&& t.execution.curr_trace_idx == 0
    &&& t.call_stack_tree is None
    &&& t.bind_traces@.len() == 0
    &&& (forall|fid: FormId, c: Seq<u16>| !t.is_hot(fid, c))
    &&& t.value_inspector is None
}

/// How the store changes when an expression event is recorded.
pub open spec fn exec_trace_rel(
    s0: DebuggerState,
    s1: DebuggerState,
    flow_id: FlowId,
    thread_id: ThreadId,
    tr: ExprTrace,
) -> bool {
    &&& trace_rel_frame(s0, s1, flow_id, thread_id)
    &&& (s0.has_flow(flow_id) ==> {
        let f0 = s0.flows@[s0.flow_i(flow_id)];
        if !f0.has_thread(thread_id) {
            exists|t0: FlowThread|
                #[trigger] fresh_thread(t0, thread_id) && expr_added(
                    t0,
                    target_threads(s0, s1, flow_id, thread_id).1,
                    tr,
                )
        } else {
            expr_added(
                target_threads(s0, s1, flow_id, thread_id).0,
                target_threads(s0, s1, flow_id, thread_id).1,
                tr,
            )
        }
    })
}

/// How the store changes when a call event is recorded.
pub open spec fn call_trace_rel(
    s0: DebuggerState,
    s1: DebuggerState,
    flow_id: FlowId,
    thread_id: ThreadId,
    tr: FnCallTrace,
) -> bool {
    &&& trace_rel_frame(s0, s1, flow_id, thread_id)
    &&& (s0.has_flow(flow_id) ==> {
        let f0 = s0.flows@[s0.flow_i(flow_id)];
        if !f0.has_thread(thread_id) {
            exists|t0: FlowThread|
                #[trigger] fresh_thread(t0, thread_id) && call_added(
                    t0,
                    target_threads(s0, s1, flow_id, thread_id).1,
                    tr,
                )
        } else {
            call_added(
                target_threads(s0, s1, flow_id, thread_id).0,
                target_threads(s0, s1, flow_id, thread_id).1,
                tr,
            )
        }
    })
}

/// How the store changes when a binding event is recorded.
pub open spec fn bind_trace_rel(
    s0: DebuggerState,
    s1: DebuggerState,
    flow_id: FlowId,
    thread_id: ThreadId,
    tr: BindTrace,
) -> bool {
    &&& trace_rel_frame(s0, s1, flow_id, thread_id)
    &&& (s0.has_flow(flow_id) ==> {
        let f0 = s0.flows@[s0.flow_i(flow_id)];
        if !f0.has_thread(thread_id) {
            exists|t0: FlowThread|
                #[trigger] fresh_thread(t0, thread_id) && bind_added(
                    t0,
                    target_threads(s0, s1, flow_id, thread_id).1,
                    tr,
                )
        } else {
            bind_added(
                target_threads(s0, s1, flow_id, thread_id).0,
                target_threads(s0, s1, flow_id, thread_id).1,
                tr,
            )
        }
    })
}

/// Registering a form twice under one (flow id, form id) pair leaves
/// the form registered by the first call unchanged, whatever source
/// text the second call carried.
pub proof fn lemma_register_idempotent(
    s0: DebuggerState,
    s1: DebuggerState,
    s2: DebuggerState,
    flow_id: FlowId,
    form_id: FormId,
    form1: Form,
    form2: Form,
)
    requires
        add_flow_form_rel(s0, s1, flow_id, form_id, form1),
        add_flow_form_rel(s1, s2, flow_id, form_id, form2),
        s0.wf(),
        s1.wf(),
    ensures
        s1.has_flow(flow_id),
        s2.has_flow(flow_id),
        s1.flow_of(flow_id).forms.contains_id(form_id),
        s2.flow_of(flow_id).forms.spec_get(form_id) == s1.flow_of(flow_id).forms.spec_get(form_id),
        !s0.has_flow(flow_id) ==> s2.flow_of(flow_id).forms.spec_get(form_id) == form1,
        s0.has_flow(flow_id) && !s0.flow_of(flow_id).forms.contains_id(form_id) ==> s2.flow_of(
            flow_id,
        ).forms.spec_get(form_id) == form1,
{
    if !s0.has_flow(flow_id) {
        let nf = s1.flows@.last();
        assert(nf.flow_id == flow_id);
        assert(s1.has_flow(flow_id));
        let i = s1.flow_i(flow_id);
        assert(0 <= i < s1.flows@.len() && s1.flows@[i].flow_id == flow_id);
        assert(i == s1.flows@.len() - 1);
        assert(s1.flow_of(flow_id) == nf);
    } else {
        let i0 = s0.flow_i(flow_id);
        assert(0 <= i0 < s0.flows@.len() && s0.flows@[i0].flow_id == flow_id);
        assert(s1.flows@[i0].flow_id == flow_id);
        assert(s1.has_flow(flow_id));
        let i1 = s1.flow_i(flow_id);
        assert(0 <= i1 < s1.flows@.len() && s1.flows@[i1].flow_id == flow_id);
        assert(i1 == i0);
    }
    let i = s1.flow_i(flow_id);
    assert(s1.flow_of(flow_id).forms.contains_id(form_id));
    assert(s2.has_flow(flow_id));
    let i2 = s2.flow_i(flow_id);
    assert(0 <= i2 < s2.flows@.len() && s2.flows@[i2].flow_id == flow_id);
    assert(i2 == i);
    assert(s2.flows@ == s1.flows@);
}

/// Hot coordinates are monotone: once a coordinate is hot in a thread,
/// it stays hot through every later event that thread records.
pub proof fn lemma_hot_set_monotonic(
    t0: FlowThread,
    t1: FlowThread,
    fid: FormId,
    c: Seq<u16>,
)
    requires
        t0.is_hot(fid, c),
        (exists|tr: ExprTrace| expr_added(t0, t1, tr)) || (exists|tr: FnCallTrace|
            call_added(t0, t1, tr)) || (exists|tr: BindTrace| bind_added(t0, t1, tr)),
    ensures
        t1.is_hot(fid, c),
{
    if exists|tr: ExprTrace| expr_added(t0, t1, tr) {
        let tr = choose|tr: ExprTrace| expr_added(t0, t1, tr);
        assert(t1.is_hot(fid, c));
    } else {
        assert(t1.hot_coords == t0.hot_coords);
    }
}

/// At every point of a consistent thread, the open-frame count equals
/// the call events recorded so far minus the outer-form expression
/// events recorded so far, and never goes below zero.
pub proof fn lemma_call_stack_depth(t: FlowThread)
    requires
        t.wf(),
        stream_wf(t.execution.traces@),
    ensures
        t.frames() == count_calls(t.execution.traces@) - count_outers(t.execution.traces@),
        count_calls(t.execution.traces@) >= count_outers(t.execution.traces@),
{
    assert(t.execution.traces@.take(t.execution.traces@.len() as int) =~= t.execution.traces@);
}

/// Whether a coordinate vector holds exactly these path entries.
fn coord_eq_slice(a: &Vec<u16>, b: &[u16]) -> (r: bool)
    ensures
        r == (a@ == b@),
{
    if a.len() != b.len() {
        return false;
    }
    let n = a.len();
    let mut i: usize = 0;
    while i < n
        invariant
            i <= n,
            n == a@.len() == b@.len(),
            forall|j: int| 0 <= j < i ==> a@[j] == b@[j],
        decreases n - i,
    {
        if a[i] != b[i] {
            return false;
        }
        i = i + 1;
    }
    proof {
        assert(a@ =~= b@);
    }
    true
}

} // verus!
