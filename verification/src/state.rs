//! The application state: the staging text bound to the input field and the
//! ordered list of todo items, newest first, with no two items sharing an
//! identifier.
//!
//! Every mutating operation returns the canonical text of the new list, so
//! that each mutation comes with exactly one snapshot to persist. Writing
//! that snapshot, and where it is written, is the caller's business.

use vstd::prelude::*;

use crate::codec::{decode_todos, encode_todos, spec_decode, spec_encode};
use crate::item::{str_eq, unique_ids, views, TodoItem, TodoView};

verus! {

/// Every item with the given identifier has its completion flag flipped;
/// all else is kept, in order.
pub open spec fn spec_toggle(l: Seq<TodoView>, id: Seq<char>) -> Seq<TodoView> {
    l.map_values(
        |t: TodoView|
            if t.id == id {
                TodoView { id: t.id, done: !t.done, text: t.text }
            } else {
                t
            },
    )
}

/// Every item with the given identifier is removed; the rest keep their
/// order.
pub open spec fn spec_delete(l: Seq<TodoView>, id: Seq<char>) -> Seq<TodoView> {
    l.filter(|t: TodoView| t.id != id)
}

/// Every completed item is removed; the rest keep their order.
pub open spec fn spec_clear(l: Seq<TodoView>) -> Seq<TodoView> {
    l.filter(|t: TodoView| !t.done)
}

/// How many items of the list are completed.
pub open spec fn count_done(l: Seq<TodoView>) -> nat {
    l.filter(|t: TodoView| t.done).len()
}

/// Keeping a subset of a list keeps its identifiers distinct, and hands out
/// only items the list held.
proof fn lemma_filter_keeps_unique(l: Seq<TodoView>, pred: spec_fn(TodoView) -> bool)
    requires
        unique_ids(l),
    ensures
        unique_ids(l.filter(pred)),
        forall|x: TodoView| l.filter(pred).contains(x) ==> l.contains(x),
    decreases l.len(),
{
    reveal(Seq::filter);
    if l.len() == 0 {
        assert(l.filter(pred).len() == 0);
    } else {
        let l0 = l.drop_last();
        let x = l.last();
        assert(unique_ids(l0)) by {
            assert(forall|i: int, j: int|
                0 <= i < j < l0.len() ==> l0[i] == l[i] && l0[j] == l[j]);
        }
        lemma_filter_keeps_unique(l0, pred);
        let f0 = l0.filter(pred);
        if pred(x) {
            assert(l.filter(pred) == f0.push(x));
            assert(forall|a: int| 0 <= a < f0.len() ==> #[trigger] f0[a].id != x.id) by {
                assert forall|a: int| 0 <= a < f0.len() implies #[trigger] f0[a].id != x.id by {
                    assert(f0.contains(f0[a]));
                    assert(l0.contains(f0[a]));
                    let j = choose|j: int| 0 <= j < l0.len() && l0[j] == f0[a];
                    assert(l[j] == l0[j]);
                    assert(x == l[l.len() - 1]);
                }
            }
            assert(unique_ids(f0.push(x))) by {
                assert(forall|i: int, j: int|
                    0 <= i < j < f0.push(x).len() ==> #[trigger] f0.push(x)[i].id != #[trigger] f0.push(
                        x,
                    )[j].id);
            }
            assert(forall|y: TodoView| #[trigger] l.filter(pred).contains(y) ==> l.contains(y)) by {
                assert forall|y: TodoView| #[trigger] l.filter(pred).contains(y) implies l.contains(
                    y,
                ) by {
                    if y == x {
                        assert(l[l.len() - 1] == x);
                    } else {
                        assert(f0.push(x).contains(y));
                        let a = choose|a: int| 0 <= a < f0.push(x).len() && f0.push(x)[a] == y;
                        assert(f0.contains(y));
                        assert(l0.contains(y));
                        let j = choose|j: int| 0 <= j < l0.len() && l0[j] == y;
                        assert(l[j] == y);
                    }
                }
            }
        } else {
            assert(l.filter(pred) == f0);
            assert(forall|y: TodoView| #[trigger] l.filter(pred).contains(y) ==> l.contains(y)) by {
                assert forall|y: TodoView| #[trigger] l.filter(pred).contains(y) implies l.contains(
                    y,
                ) by {
                    assert(f0.contains(y));
                    assert(l0.contains(y));
                    let j = choose|j: int| 0 <= j < l0.len() && l0[j] == y;
                    assert(l[j] == y);
                }
            }
        }
    }
}

/// The whole in-memory state of the application.
pub struct AppState {
    /// The staging text bound to the input field, not yet part of the list.
    pub new_todo: String,
    /// The ordered list of items, most recently added first.
    pub todos: Vec<TodoItem>,
}

impl AppState {
    /// The state's invariant: no two items share an identifier.
    pub open spec fn wf(self) -> bool {
        unique_ids(views(self.todos@))
    }

    /// Some item of the list carries this identifier.
    pub open spec fn has_id(self, id: Seq<char>) -> bool {
        exists|k: int| 0 <= k < self.todos@.len() && self.todos@[k]@.id == id
    }

    /// An empty state: no items, empty staging text.
    pub fn new() -> (s: Self)
        ensures
            s.wf(),
            s.new_todo@ == Seq::<char>::empty(),
            views(s.todos@) == Seq::<TodoView>::empty(),
    {
        let s = AppState { new_todo: String::new(), todos: Vec::new() };
        proof {
            assert(views(s.todos@) =~= Seq::<TodoView>::empty());
        }
        s
    }

    /// The canonical text of the current list, ready to be written to the
    /// persisted file. A pure function of the list: two calls with the
    /// state unchanged give identical text.
    pub fn save_to_json(&self) -> (r: String)
        ensures
            r@ == spec_encode(views(self.todos@)),
    {
        encode_todos(&self.todos)
    }

    /// Whether the list already holds the identifier.
    fn contains_id(&self, id: &str) -> (r: bool)
        ensures
            r == self.has_id(id@),
    {
        let n = self.todos.len();
        let mut k: usize = 0;
        while k < n
            invariant
                n == self.todos@.len(),
                0 <= k <= n,
                forall|m: int| 0 <= m < k ==> self.todos@[m]@.id != id@,
            decreases n - k,
        {
            if str_eq(self.todos[k].id.as_str(), id) {
                return true;
            }
            k += 1;
        }
        false
    }

    /// Reconstruct a state from the persisted file's content, or rather
    /// from what the caller found: `None` when there is no file to read.
    /// A missing file, a text that is not a well-formed persisted list, and
    /// a list with a repeated identifier all yield the empty state; a
    /// well-formed list is taken as it stands, staging text empty.
    pub fn load_from_json(content: Option<&str>) -> (s: Self)
        ensures
            s.wf(),
            s.new_todo@ == Seq::<char>::empty(),
            match content {
                None => views(s.todos@) == Seq::<TodoView>::empty(),
                Some(c) => match spec_decode(c@) {
                    Some(l) => if unique_ids(l) {
                        views(s.todos@) == l
                    } else {
                        views(s.todos@) == Seq::<TodoView>::empty()
                    },
                    None => views(s.todos@) == Seq::<TodoView>::empty(),
                },
            },
    {
        match content {
            None => Self::new(),
            Some(c) => match decode_todos(c) {
                None => Self::new(),
                Some(v) => {
                    if ids_unique(&v) {
                        AppState { new_todo: String::new(), todos: v }
                    } else {
                        Self::new()
                    }
                },
            },
        }
    }
}

/// Removing the items an identifier names commutes with adding an item at
/// the end.
proof fn lemma_delete_snoc(s: Seq<TodoView>, id: Seq<char>, x: TodoView)
    ensures
        spec_delete(s.push(x), id) == (if x.id != id {
            spec_delete(s, id).push(x)
        } else {
            spec_delete(s, id)
        }),
{
    reveal(Seq::filter);
    assert(s.push(x).drop_last() =~= s);
    assert(s.push(x).last() == x);
}

/// Removing the completed items commutes with adding an item at the end.
proof fn lemma_clear_snoc(s: Seq<TodoView>, x: TodoView)
    ensures
        spec_clear(s.push(x)) == (if !x.done {
            spec_clear(s).push(x)
        } else {
            spec_clear(s)
        }),
{
    reveal(Seq::filter);
    assert(s.push(x).drop_last() =~= s);
    assert(s.push(x).last() == x);
}

/// The items kept by `clearCompleted` and the completed items it removes
/// make up the whole list.
pub proof fn lemma_clear_count(l: Seq<TodoView>)
    ensures
        spec_clear(l).len() + count_done(l) == l.len(),
    decreases l.len(),
{
    reveal(Seq::filter);
    if l.len() == 0 {
    } else {
        lemma_clear_count(l.drop_last());
    }
}

/// One user intent, in the model. `Add` carries the drawn identifier and
/// the staging text; the others carry the identifier they act on, if any.
pub ghost enum Op {
    Add(Seq<char>, Seq<char>),
    Toggle(Seq<char>),
    Delete(Seq<char>),
    Clear,
}

/// Some item of the list carries this identifier.
pub open spec fn seq_has_id(l: Seq<TodoView>, id: Seq<char>) -> bool {
    exists|k: int| 0 <= k < l.len() && l[k].id == id
}

/// What one operation does to the list, exactly as the mutation operations
/// promise it: `Add` prepends a not-yet-done item unless the drawn
/// identifier is already present, and the rest are `spec_toggle`,
/// `spec_delete` and `spec_clear`.
pub open spec fn apply_op(l: Seq<TodoView>, op: Op) -> Seq<TodoView> {
    match op {
        Op::Add(id, text) => if seq_has_id(l, id) {
            l
        } else {
            seq![TodoView { id, done: false, text }] + l
        },
        Op::Toggle(id) => spec_toggle(l, id),
        Op::Delete(id) => spec_delete(l, id),
        Op::Clear => spec_clear(l),
    }
}

/// What a whole sequence of operations does to the list, first first.
pub open spec fn apply_ops(l: Seq<TodoView>, ops: Seq<Op>) -> Seq<TodoView>
    decreases ops.len(),
{
    if ops.len() == 0 {
        l
    } else {
        apply_ops(apply_op(l, ops[0]), ops.drop_first())
    }
}

/// One operation keeps the identifiers distinct.
proof fn lemma_op_keeps_unique(l: Seq<TodoView>, op: Op)
    requires
        unique_ids(l),
    ensures
        unique_ids(apply_op(l, op)),
{
    match op {
        Op::Add(id, text) => {
            if !seq_has_id(l, id) {
                let out = seq![TodoView { id, done: false, text }] + l;
                assert(forall|k: int| 0 <= k < l.len() ==> #[trigger] l[k].id != id);
                assert(forall|i: int, j: int|
                    0 <= i < j < out.len() ==> #[trigger] out[i].id != #[trigger] out[j].id);
            }
        },
        Op::Toggle(id) => {
            let out = spec_toggle(l, id);
            assert(forall|i: int| 0 <= i < out.len() ==> #[trigger] out[i].id == l[i].id);
            assert(forall|i: int, j: int|
                0 <= i < j < out.len() ==> #[trigger] out[i].id != #[trigger] out[j].id);
        },
        Op::Delete(id) => {
            lemma_filter_keeps_unique(l, |t: TodoView| t.id != id);
        },
        Op::Clear => {
            lemma_filter_keeps_unique(l, |t: TodoView| !t.done);
        },
    }
}

/// However the user drives the application — whatever sequence of add,
/// toggle, delete and clear, from whatever well-formed starting list — the
/// list never holds two items with the same identifier.
pub proof fn lemma_ops_keep_unique(l: Seq<TodoView>, ops: Seq<Op>)
    requires
        unique_ids(l),
    ensures
        unique_ids(apply_ops(l, ops)),
    decreases ops.len(),
{
    if ops.len() > 0 {
        lemma_op_keeps_unique(l, ops[0]);
        lemma_ops_keep_unique(apply_op(l, ops[0]), ops.drop_first());
    }
}

impl AppState {
    /// Create an item from the staging text and put it at the front of the
    /// list, then clear the staging text. The freshly generated identifier
    /// is returned together with the snapshot to persist. Should the
    /// generated identifier collide with one already in the list — the only
    /// case the generator's randomness leaves open — nothing is changed, so
    /// that the invariant is kept.
    pub fn add_todo(&mut self) -> (r: (String, String))
        requires
            old(self).wf(),
        ensures
            final(self).wf(),
            r.1@ == spec_encode(views(final(self).todos@)),
            old(self).has_id(r.0@) ==> *final(self) == *old(self),
            !old(self).has_id(r.0@) ==> final(self).new_todo@ == Seq::<char>::empty() && views(
                final(self).todos@,
            ) == seq![TodoView { id: r.0@, done: false, text: old(self).new_todo@ }] + views(
                old(self).todos@,
            ),
    {
        let fresh = crate::item::TodoItem::new(self.new_todo.as_str());
        let id_text = fresh.id.clone();
        if self.contains_id(id_text.as_str()) {
            let snapshot = encode_todos(&self.todos);
            (id_text, snapshot)
        } else {
            let ghost orig = views(self.todos@);
            self.todos.insert(0, fresh);
            self.new_todo = String::new();
            proof {
                assert(views(self.todos@) =~= seq![
                    TodoView { id: id_text@, done: false, text: old(self).new_todo@ },
                ] + orig);
                assert(forall|k: int|
                    0 <= k < orig.len() ==> #[trigger] orig[k].id != id_text@) by {
                    assert(forall|k: int|
                        0 <= k < old(self).todos@.len() ==> old(self).todos@[k]@.id
                            != id_text@);
                }
                assert(unique_ids(views(self.todos@))) by {
                    let l = views(self.todos@);
                    assert(forall|i: int, j: int|
                        0 <= i < j < l.len() ==> #[trigger] l[i].id != #[trigger] l[j].id);
                }
            }
            let snapshot = encode_todos(&self.todos);
            (id_text, snapshot)
        }
    }

    /// Flip the completion flag of the item the identifier names; an
    /// identifier the list does not hold changes nothing. Returns the
    /// snapshot to persist: every change of a completion flag is saved.
    pub fn toggle_done(&mut self, id: &str) -> (snapshot: String)
        requires
            old(self).wf(),
        ensures
            final(self).wf(),
            final(self).new_todo == old(self).new_todo,
            views(final(self).todos@) == spec_toggle(views(old(self).todos@), id@),
            snapshot@ == spec_encode(views(final(self).todos@)),
    {
        let ghost orig = views(self.todos@);
        let mut out: Vec<TodoItem> = Vec::new();
        let n = self.todos.len();
        let mut k: usize = 0;
        while k < n
            invariant
                n == self.todos@.len(),
                0 <= k <= n,
                orig == views(self.todos@),
                views(out@) == spec_toggle(orig.take(k as int), id@),
            decreases n - k,
        {
            let item = self.todos[k].duplicate();
            let pushed: TodoItem;
            if str_eq(item.id.as_str(), id) {
                pushed = TodoItem { id: item.id, done: !item.done, text: item.text };
            } else {
                pushed = item;
            }
            let ghost prev = out@;
            let ghost cur = orig[k as int];
            out.push(pushed);
            proof {
                assert(orig.take(k + 1 as int) =~= orig.take(k as int).push(cur));
                assert(cur == self.todos@[k as int]@);
                assert(pushed@ == (if cur.id == id@ {
                    TodoView { id: cur.id, done: !cur.done, text: cur.text }
                } else {
                    cur
                }));
                assert(views(out@) =~= views(prev).push(pushed@));
                assert(spec_toggle(orig.take(k + 1 as int), id@) =~= spec_toggle(
                    orig.take(k as int),
                    id@,
                ).push(pushed@));
            }
            k += 1;
        }
        proof {
            assert(orig.take(n as int) =~= orig);
        }
        self.todos = out;
        proof {
            let l = views(self.todos@);
            assert(forall|i: int| 0 <= i < l.len() ==> #[trigger] l[i].id == orig[i].id);
            assert(unique_ids(l)) by {
                assert(forall|i: int, j: int|
                    0 <= i < j < l.len() ==> #[trigger] l[i].id != #[trigger] l[j].id);
            }
        }
        encode_todos(&self.todos)
    }

    /// Remove the item the identifier names; an identifier the list does
    /// not hold changes nothing. Returns the snapshot to persist.
    pub fn delete_todo(&mut self, id: &str) -> (snapshot: String)
        requires
            old(self).wf(),
        ensures
            final(self).wf(),
            final(self).new_todo == old(self).new_todo,
            views(final(self).todos@) == spec_delete(views(old(self).todos@), id@),
            snapshot@ == spec_encode(views(final(self).todos@)),
    {
        let ghost orig = views(self.todos@);
        let mut out: Vec<TodoItem> = Vec::new();
        let n = self.todos.len();
        let mut k: usize = 0;
        while k < n
            invariant
                n == self.todos@.len(),
                0 <= k <= n,
                orig == views(self.todos@),
                views(out@) == spec_delete(orig.take(k as int), id@),
            decreases n - k,
        {
            let keep = !str_eq(self.todos[k].id.as_str(), id);
            if keep {
                let item = self.todos[k].duplicate();
                out.push(item);
            }
            proof {
                assert(orig.take(k + 1 as int) =~= orig.take(k as int).push(orig[k as int]));
                assert(orig[k as int] == self.todos@[k as int]@);
                lemma_delete_snoc(orig.take(k as int), id@, orig[k as int]);
                if keep {
                    assert(views(out@) =~= spec_delete(orig.take(k as int), id@).push(
                        orig[k as int],
                    ));
                }
            }
            k += 1;
        }
        proof {
            assert(orig.take(n as int) =~= orig);
        }
        self.todos = out;
        proof {
            lemma_filter_keeps_unique(orig, |t: TodoView| t.id != id@);
        }
        encode_todos(&self.todos)
    }

    /// Remove every completed item, keeping the rest in order, and return
    /// the one snapshot to persist for the whole batch.
    pub fn clear_completed(&mut self) -> (snapshot: String)
        requires
            old(self).wf(),
        ensures
            final(self).wf(),
            final(self).new_todo == old(self).new_todo,
            views(final(self).todos@) == spec_clear(views(old(self).todos@)),
            views(final(self).todos@).len() + count_done(views(old(self).todos@)) == views(
                old(self).todos@,
            ).len(),
            forall|k: int|
                0 <= k < views(final(self).todos@).len() ==> !views(final(self).todos@)[k].done,
            snapshot@ == spec_encode(views(final(self).todos@)),
    {
        let ghost orig = views(self.todos@);
        let mut out: Vec<TodoItem> = Vec::new();
        let n = self.todos.len();
        let mut k: usize = 0;
        while k < n
            invariant
                n == self.todos@.len(),
                0 <= k <= n,
                orig == views(self.todos@),
                views(out@) == spec_clear(orig.take(k as int)),
                forall|m: int| 0 <= m < views(out@).len() ==> !views(out@)[m].done,
            decreases n - k,
        {
            let keep = !self.todos[k].done;
            if keep {
                let item = self.todos[k].duplicate();
                out.push(item);
            }
            proof {
                assert(orig.take(k + 1 as int) =~= orig.take(k as int).push(orig[k as int]));
                assert(orig[k as int] == self.todos@[k as int]@);
                lemma_clear_snoc(orig.take(k as int), orig[k as int]);
                if keep {
                    assert(views(out@) =~= spec_clear(orig.take(k as int)).push(orig[k as int]));
                }
            }
            k += 1;
        }
        proof {
            assert(orig.take(n as int) =~= orig);
        }
        self.todos = out;
        proof {
            lemma_filter_keeps_unique(orig, |t: TodoView| !t.done);
            lemma_clear_count(orig);
        }
        encode_todos(&self.todos)
    }

    /// The "Add" button's handler: submit the staging text as a new item.
    pub fn click_add(data: &mut AppState) -> (r: (String, String))
        requires
            old(data).wf(),
        ensures
            final(data).wf(),
            r.1@ == spec_encode(views(final(data).todos@)),
            old(data).has_id(r.0@) ==> *final(data) == *old(data),
            !old(data).has_id(r.0@) ==> final(data).new_todo@ == Seq::<char>::empty() && views(
                final(data).todos@,
            ) == seq![TodoView { id: r.0@, done: false, text: old(data).new_todo@ }] + views(
                old(data).todos@,
            ),
    {
        data.add_todo()
    }
}

/// Round trip: the text that `save_to_json` writes for a well-formed state
/// denotes exactly that state's list — same identifiers, same completion
/// flags, same text, in the same order — so `load_from_json` reconstructs
/// it.
pub proof fn lemma_load_of_save(s: AppState)
    requires
        s.wf(),
    ensures
        spec_decode(spec_encode(views(s.todos@))) == Some(views(s.todos@)),
{
    crate::codec::lemma_decode_encode(views(s.todos@));
}

/// Whether no two items of the vector share an identifier.
fn ids_unique(v: &Vec<TodoItem>) -> (r: bool)
    ensures
        r == unique_ids(views(v@)),
{
    let n = v.len();
    let mut i: usize = 0;
    while i < n
        invariant
            n == v@.len(),
            0 <= i <= n,
            forall|a: int, b: int| 0 <= a < b < n && a < i ==> views(v@)[a].id != views(v@)[b].id,
        decreases n - i,
    {
        let mut j: usize = i + 1;
        while j < n
            invariant
                n == v@.len(),
                0 <= i < j <= n,
                forall|b: int| i < b < j ==> views(v@)[i as int].id != views(v@)[b].id,
            decreases n - j,
        {
            if str_eq(v[i].id.as_str(), v[j].id.as_str()) {
                proof {
                    assert(views(v@)[i as int].id == views(v@)[j as int].id);
                }
                return false;
            }
            j += 1;
        }
        i += 1;
    }
    true
}

} // verus!
