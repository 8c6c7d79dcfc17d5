//! Storage helpers for the trace store: a form table that serves lookups
//! by id and iteration in registration-timestamp order, and the arena
//! that holds a thread's call-stack tree.

use crate::state::Form;
use crate::state::FormId;
use vstd::prelude::*;

verus! {

/// Form table: lookup by form id, iteration in descending registration
/// timestamp order. First write wins: a second insert under a known id
/// changes nothing.
#[derive(Debug)]
pub struct SortedForms {
    ids: Vec<FormId>,
    forms: Vec<Form>,
    order: Vec<(u64, FormId)>,
}

/// Cursor over a `SortedForms`, yielding forms in descending
/// registration timestamp order.
pub struct SortedFormsIter<'a> {
    sorted_forms: &'a SortedForms,
    pos: usize,
}

/// Timestamps never increase along the sequence.
pub open spec fn sorted_desc(s: Seq<(u64, FormId)>) -> bool {
    forall|i: int, j: int| 0 <= i < j < s.len() ==> (#[trigger] s[i]).0 >= (#[trigger] s[j]).0
}

/// No id occurs twice.
pub open spec fn ids_distinct(ids: Seq<FormId>) -> bool {
    forall|i: int, j: int| 0 <= i < j < ids.len() ==> ids[i] != ids[j]
}

/// With distinct ids, `index_of` names the one position an id occupies.
proof fn lemma_index_of_unique(ids: Seq<FormId>, x: FormId, i: int)
    requires
        ids_distinct(ids),
        0 <= i < ids.len(),
        ids[i] == x,
    ensures
        ids.contains(x),
        ids.index_of(x) == i,
{
    assert(ids.contains(x));
    let j = ids.index_of(x);
    assert(0 <= j < ids.len() && ids[j] == x);
}

impl SortedForms {
    /// The stored ids, in insertion order.
    pub closed spec fn id_seq(self) -> Seq<FormId> {
        self.ids@
    }

    /// The stored forms, in insertion order (parallel to `id_seq`).
    pub closed spec fn form_seq(self) -> Seq<Form> {
        self.forms@
    }

    /// The iteration order: (timestamp, id) pairs, timestamps descending.
    pub closed spec fn order_seq(self) -> Seq<(u64, FormId)> {
        self.order@
    }

    /// Whether an id is present.
    pub open spec fn contains_id(self, id: FormId) -> bool {
        self.id_seq().contains(id)
    }

    /// The form stored under a present id.
    pub open spec fn spec_get(self, id: FormId) -> Form {
        self.form_seq()[self.id_seq().index_of(id)]
    }

    /// Internal consistency: ids are distinct, the parallel vectors have
    /// one entry per id, and the order list holds each id once with its
    /// form's timestamp, sorted by descending timestamp.
    pub closed spec fn wf(self) -> bool {
        &&& self.ids@.len() == self.forms@.len()
        &&& self.order@.len() == self.ids@.len()
        &&& ids_distinct(self.ids@)
        &&& sorted_desc(self.order@)
        &&& (forall|i: int|
            0 <= i < self.order@.len() ==> self.ids@.contains((#[trigger] self.order@[i]).1))
        &&& (forall|i: int, j: int|
            0 <= i < j < self.order@.len() ==> (#[trigger] self.order@[i]).1 != (
            #[trigger] self.order@[j]).1)
        &&& (forall|i: int|
            0 <= i < self.order@.len() ==> (#[trigger] self.order@[i]).0 == self.forms@[self.ids@.index_of(
                self.order@[i].1,
            )].timestamp)
        &&& (forall|k: int|
            0 <= k < self.ids@.len() ==> exists|i: int|
                0 <= i < self.order@.len() && (#[trigger] self.order@[i]).1
                    == #[trigger] self.ids@[k])
    }

    /// What the table's invariant guarantees of the iteration order,
    /// stated for callers: the (timestamp, id) pairs are sorted by
    /// non-increasing timestamp, every pair names a stored form and
    /// carries that form's registration timestamp, each stored id
    /// appears exactly once, and there is one pair per stored form.
    pub proof fn lemma_order_facts(self)
        requires
            self.wf(),
        ensures
            self.order_seq().len() == self.id_seq().len(),
            sorted_desc(self.order_seq()),
            forall|i: int|
                0 <= i < self.order_seq().len() ==> self.contains_id(
                    (#[trigger] self.order_seq()[i]).1,
                ) && self.order_seq()[i].0 == self.spec_get(self.order_seq()[i].1).timestamp,
            forall|i: int, j: int|
                0 <= i < j < self.order_seq().len() ==> (#[trigger] self.order_seq()[i]).1 != (
                #[trigger] self.order_seq()[j]).1,
            forall|id: FormId|
                self.contains_id(id) ==> exists|i: int|
                    0 <= i < self.order_seq().len() && (#[trigger] self.order_seq()[i]).1 == id,
    {
        assert forall|id: FormId| self.contains_id(id) implies exists|i: int|
            0 <= i < self.order_seq().len() && (#[trigger] self.order_seq()[i]).1 == id by {
            let posn = self.ids@.index_of(id);
            assert(0 <= posn < self.ids@.len() && self.ids@[posn] == id);
            let i0 = choose|i: int|
                0 <= i < self.order@.len() && (#[trigger] self.order@[i]).1 == self.ids@[posn];
            assert(0 <= i0 < self.order_seq().len() && self.order_seq()[i0].1 == id);
        }
    }

    /// An empty table.
    pub fn new() -> (r: Self)
        ensures
            r.wf(),
            r.id_seq().len() == 0,
            r.form_seq().len() == 0,
            r.order_seq().len() == 0,
            sorted_desc(r.order_seq()),
    {
        Self { ids: Vec::new(), forms: Vec::new(), order: Vec::new() }
    }

    /// The position of an id among the stored ids, if present.
    fn find(&self, form_id: &FormId) -> (r: Option<usize>)
        requires
            self.wf(),
        ensures
            match r {
                Some(i) => i < self.id_seq().len() && self.id_seq()[i as int] == *form_id
                    && self.id_seq().index_of(*form_id) == i as int,
                None => !self.contains_id(*form_id),
            },
    {
        let mut i: usize = 0;
        #[verifier::loop_isolation(false)]
        while i < self.ids.len()
            invariant
                i <= self.ids@.len(),
                forall|j: int| 0 <= j < i ==> self.ids@[j] != *form_id,
            decreases self.ids@.len() - i,
        {
            if self.ids[i] == *form_id {
                proof {
                    lemma_index_of_unique(self.ids@, *form_id, i as int);
                }
                return Some(i);
            }
            i = i + 1;
        }
        proof {
            assert(forall|j: int| 0 <= j < self.ids@.len() ==> self.ids@[j] != *form_id);
            assert(!self.ids@.contains(*form_id));
        }
        None
    }

    /// The form registered under `form_id`, if any.
    pub fn get(&self, form_id: &FormId) -> (r: Option<&Form>)
        requires
            self.wf(),
        ensures
            match r {
                Some(f) => self.contains_id(*form_id) && *f == self.spec_get(*form_id),
                None => !self.contains_id(*form_id),
            },
    {
        match self.find(form_id) {
            Some(i) => Some(&self.forms[i]),
            None => None,
        }
    }

    /// Registers a form under `form_id`. The first write wins: when the
    /// id is already present nothing changes; otherwise the form is
    /// stored and its (timestamp, id) pair enters the iteration order at
    /// its sorted place.
    pub fn insert(&mut self, form_id: FormId, form: Form)
        requires
            old(self).wf(),
        ensures
            final(self).wf(),
            sorted_desc(final(self).order_seq()),
            old(self).contains_id(form_id) ==> *final(self) == *old(self),
            !old(self).contains_id(form_id) ==> {
                &&& final(self).id_seq() == old(self).id_seq().push(form_id)
                &&& final(self).form_seq() == old(self).form_seq().push(form)
                &&& final(self).contains_id(form_id)
                &&& final(self).spec_get(form_id) == form
                &&& exists|k: int|
                    0 <= k <= old(self).order_seq().len() && final(self).order_seq() == old(self).order_seq().insert(k, (form.timestamp, form_id))
            },
            forall|id: FormId|
                old(self).contains_id(id) ==> final(self).contains_id(id) && final(self).spec_get(id) == old(self).spec_get(id),
    {
        if self.find(&form_id).is_some() {
            return ;
        }
        let timestamp = form.timestamp;
        self.ids.push(form_id);
        self.forms.push(form);
        proof {
            assert(self.ids@ == old(self).ids@.push(form_id));
            assert(ids_distinct(self.ids@));
            assert forall|id: FormId| old(self).contains_id(id) implies self.ids@.contains(id)
                && self.forms@[self.ids@.index_of(id)] == old(self).forms@[old(self).ids@.index_of(id)] by {
                let i = old(self).ids@.index_of(id);
                assert(0 <= i < old(self).ids@.len() && old(self).ids@[i] == id);
                assert(self.ids@[i] == id);
                lemma_index_of_unique(self.ids@, id, i);
            }
        }
        let mut idx: usize = 0;
        #[verifier::loop_isolation(false)]
        while idx < self.order.len() && self.order[idx].0 >= timestamp
            invariant
                idx <= self.order@.len(),
                forall|j: int| 0 <= j < idx ==> (#[trigger] self.order@[j]).0 >= timestamp,
            decreases self.order@.len() - idx,
        {
            idx = idx + 1;
        }
        proof {
            assert(idx < self.order@.len() ==> self.order@[idx as int].0 < timestamp);
        }
        let ghost order0 = self.order@;
        self.order.insert(idx, (timestamp, form_id));
        proof {
            order0.insert_ensures(idx as int, (timestamp, form_id));
            assert(self.order@ == order0.insert(idx as int, (timestamp, form_id)));
            assert(order0 == old(self).order@);
            assert forall|i: int, j: int| 0 <= i < j < self.order@.len() implies (
            #[trigger] self.order@[i]).0 >= (#[trigger] self.order@[j]).0 by {
                if i < idx && j < idx {
                } else if i == idx {
                    assert(self.order@[i].0 == timestamp);
                    assert(self.order@[j] == order0[j - 1]);
                    assert(j - 1 >= idx);
                    if idx < order0.len() {
                        assert(order0[idx as int].0 < timestamp);
                        if j - 1 > idx {
                            assert(order0[idx as int].0 >= order0[j - 1].0);
                        }
                    }
                } else if j == idx {
                    assert(self.order@[i] == order0[i]);
                    assert(self.order@[i].0 >= timestamp);
                } else if i < idx {
                    assert(self.order@[i] == order0[i]);
                    assert(self.order@[j] == order0[j - 1]);
                } else {
                    assert(self.order@[i] == order0[i - 1]);
                    assert(self.order@[j] == order0[j - 1]);
                }
            }
            let oldids = old(self).ids@;
            assert forall|i: int|
                0 <= i < self.order@.len() implies self.ids@.contains(
                (#[trigger] self.order@[i]).1,
            ) && self.order@[i].0 == self.forms@[self.ids@.index_of(self.order@[i].1)].timestamp by {
                if i != idx {
                    let oi = if i < idx {
                        i
                    } else {
                        i - 1
                    };
                    assert(self.order@[i] == old(self).order@[oi]);
                    assert(oldids.contains(self.order@[i].1));
                    let oj = oldids.index_of(self.order@[i].1);
                    assert(0 <= oj < oldids.len() && oldids[oj] == self.order@[i].1);
                    assert(self.ids@[oj] == self.order@[i].1);
                    lemma_index_of_unique(self.ids@, self.order@[i].1, oj);
                } else {
                    assert(self.ids@[oldids.len() as int] == form_id);
                    lemma_index_of_unique(self.ids@, form_id, oldids.len() as int);
                }
            }
            assert forall|k: int| 0 <= k < self.ids@.len() implies exists|i: int|
                0 <= i < self.order@.len() && (#[trigger] self.order@[i]).1
                    == #[trigger] self.ids@[k] by {
                if k < oldids.len() {
                    assert(self.ids@[k] == oldids[k]);
                    let i0 = choose|i: int|
                        0 <= i < order0.len() && (#[trigger] order0[i]).1 == oldids[k];
                    let i1: int = if i0 < idx as int {
                        i0
                    } else {
                        i0 + 1
                    };
                    assert(self.order@[i1] == order0[i0]);
                } else {
                    assert(self.ids@[k] == form_id);
                    assert(self.order@[idx as int].1 == form_id);
                }
            }
            assert(0 <= idx as int <= old(self).order_seq().len());
            assert(self.ids@[oldids.len() as int] == form_id);
            lemma_index_of_unique(self.ids@, form_id, oldids.len() as int);
            assert(self.forms@[oldids.len() as int] == form);
        }
    }

    /// A cursor positioned at the newest form.
    pub fn iter(&self) -> (r: SortedFormsIter)
        ensures
            r.sorted_forms_spec() == *self,
            r.pos_spec() == 0,
    {
        SortedFormsIter { sorted_forms: self, pos: 0 }
    }
}

impl<'a> SortedFormsIter<'a> {
    /// The table this cursor walks.
    pub closed spec fn sorted_forms_spec(self) -> SortedForms {
        *self.sorted_forms
    }

    /// How many forms were already yielded.
    pub closed spec fn pos_spec(self) -> nat {
        self.pos as nat
    }

    /// The next form in descending timestamp order, if one is left.
    pub fn next(&mut self) -> (r: Option<&'a Form>)
        requires
            old(self).sorted_forms_spec().wf(),
        ensures
            final(self).sorted_forms_spec() == old(self).sorted_forms_spec(),
            ({
                let t = old(self).sorted_forms_spec();
                if old(self).pos_spec() < t.order_seq().len() {
                    &&& final(self).pos_spec() == old(self).pos_spec() + 1
                    &&& r matches Some(f) && t.contains_id(
                        t.order_seq()[old(self).pos_spec() as int].1,
                    ) && *f == t.spec_get(t.order_seq()[old(self).pos_spec() as int].1)
                } else {
                    r is None && final(self).pos_spec() == old(self).pos_spec()
                }
            }),
    {
        if self.pos < self.sorted_forms.order.len() {
            let (_ts, form_id) = self.sorted_forms.order[self.pos];
            self.pos = self.pos + 1;
            self.sorted_forms.get(&form_id)
        } else {
            None
        }
    }
}

/// A thread's call-stack tree, stored as an arena: nodes own their
/// children by index, and the build stack holds the indices of the
/// frames still open. Each node records the index of the call event
/// that opened it in the thread's trace log.
#[derive(Debug)]
pub struct CallStackTreeNode {
    pub trace_idx: usize,
    pub childs: Vec<usize>,
}

/// See `CallStackTreeNode`. The root is created by the thread's first
/// call event; a thread never gets a second root.
#[derive(Debug)]
pub struct CallStackTree {
    pub nodes: Vec<CallStackTreeNode>,
    pub root: usize,
    pub stack: Vec<usize>,
}

impl CallStackTree {
    /// How many call frames are open.
    pub open spec fn open_frames(self) -> nat {
        self.stack@.len()
    }

    /// The arena nodes, in creation order.
    pub open spec fn node_seq(self) -> Seq<CallStackTreeNode> {
        self.nodes@
    }

    /// The node a new call attaches to: the innermost open frame, or the
    /// root when every frame has been closed.
    pub open spec fn attach_point(self) -> int {
        if self.stack@.len() > 0 {
            self.stack@.last() as int
        } else {
            self.root as int
        }
    }

    /// Internal consistency: the root is the first node, and every stack
    /// entry and every child link points into the arena.
    pub open spec fn wf(self) -> bool {
        &&& self.root == 0
        &&& self.nodes@.len() >= 1
        &&& (forall|i: int|
            0 <= i < self.stack@.len() ==> (#[trigger] self.stack@[i]) < self.nodes@.len())
        &&& (forall|i: int, j: int|
            0 <= i < self.nodes@.len() && 0 <= j < self.nodes@[i].childs@.len()
                ==> #[trigger] self.nodes@[i].childs@[j] < self.nodes@.len())
    }

    /// A tree holding only its root, which is the one open frame; the
    /// root records the call event at `trace_idx`.
    pub fn new(trace_idx: usize) -> (r: Self)
        ensures
            r.wf(),
            r.open_frames() == 1,
            r.node_seq().len() == 1,
            r.node_seq()[0].trace_idx == trace_idx,
            r.node_seq()[0].childs@.len() == 0,
            r.root == 0,
            r.stack@ == seq![0usize],
    {
        let mut nodes: Vec<CallStackTreeNode> = Vec::new();
        nodes.push(CallStackTreeNode { trace_idx, childs: Vec::new() });
        let mut stack: Vec<usize> = Vec::new();
        stack.push(0);
        proof {
            assert(stack@ =~= seq![0usize]);
        }
        Self { nodes, root: 0, stack }
    }

    /// Opens a frame for the call event at `trace_idx`: a new node joins
    /// the arena as a child of the attach point and becomes the
    /// innermost open frame.
    pub fn call(&mut self, trace_idx: usize)
        requires
            old(self).wf(),
            old(self).node_seq().len() < usize::MAX,
        ensures
            final(self).wf(),
            final(self).open_frames() == old(self).open_frames() + 1,
            final(self).node_seq().len() == old(self).node_seq().len() + 1,
            final(self).node_seq().last().trace_idx == trace_idx,
            final(self).node_seq().last().childs@.len() == 0,
            final(self).attach_point() == old(self).node_seq().len() as int,
            final(self).stack@ == old(self).stack@.push(old(self).node_seq().len() as usize),
            final(self).root == old(self).root,
            ({
                let p = old(self).attach_point();
                &&& final(self).node_seq()[p].childs@ == old(self).node_seq()[p].childs@.push(
                    old(self).node_seq().len() as usize,
                )
                &&& final(self).node_seq()[p].trace_idx == old(self).node_seq()[p].trace_idx
                &&& forall|i: int|
                    0 <= i < old(self).node_seq().len() && i != p ==> final(self).node_seq()[i]
                        == old(self).node_seq()[i]
            }),
    {
        let new_idx = self.nodes.len();
        self.nodes.push(CallStackTreeNode { trace_idx, childs: Vec::new() });
        let parent = if self.stack.len() > 0 {
            self.stack[self.stack.len() - 1]
        } else {
            self.root
        };
        let ghost nodes0 = self.nodes@;
        let node = vstd::std_specs::vec::vec_index_mut(&mut self.nodes, parent);
        node.childs.push(new_idx);
        proof {
            assert(self.nodes@ =~= nodes0.update(
                parent as int,
                CallStackTreeNode {
                    trace_idx: nodes0[parent as int].trace_idx,
                    childs: self.nodes@[parent as int].childs,
                },
            ));
            assert forall|i: int, j: int|
                0 <= i < self.nodes@.len() && 0 <= j < self.nodes@[i].childs@.len() implies
                #[trigger] self.nodes@[i].childs@[j] < self.nodes@.len() by {
                if i == parent as int {
                    assert(self.nodes@[i].childs@ == old(self).nodes@[i].childs@.push(new_idx));
                    if j < old(self).nodes@[i].childs@.len() {
                        assert(self.nodes@[i].childs@[j] == old(self).nodes@[i].childs@[j]);
                    } else {
                        assert(self.nodes@[i].childs@[j] == new_idx);
                    }
                } else if i < old(self).nodes@.len() {
                    assert(self.nodes@[i] == old(self).nodes@[i]);
                } else {
                    assert(self.nodes@[i].childs@.len() == 0);
                }
            }
        }
        self.stack.push(new_idx);
    }

    /// Closes the innermost open frame. Closing with no frame open is a
    /// protocol inconsistency and changes nothing.
    pub fn pop(&mut self)
        requires
            old(self).wf(),
        ensures
            final(self).wf(),
            final(self).node_seq() == old(self).node_seq(),
            final(self).root == old(self).root,
            final(self).open_frames() == if old(self).open_frames() > 0 {
                (old(self).open_frames() - 1) as nat
            } else {
                0nat
            },
            final(self).stack@ == if old(self).stack@.len() > 0 {
                old(self).stack@.drop_last()
            } else {
                old(self).stack@
            },
    {
        let _popped = self.stack.pop();
        proof {
            if old(self).stack@.len() == 0 {
                assert(self.stack@ =~= old(self).stack@);
            }
        }
    }
}

} // verus!
