//! A single todo record: an identifier, a completion flag, and free-form text.

use vstd::prelude::*;

verus! {

/// Mathematical model of a todo item: the identifier and the text as
/// character sequences, and the completion flag.
pub ghost struct TodoView {
    pub id: Seq<char>,
    pub done: bool,
    pub text: Seq<char>,
}

/// One task record. The identifier is generated at creation, never changed
/// afterwards, and is the sole key used for deletion and lookup.
pub struct TodoItem {
    pub id: String,
    pub done: bool,
    pub text: String,
}

impl View for TodoItem {
    type V = TodoView;

    open spec fn view(&self) -> TodoView {
        TodoView { id: self.id@, done: self.done, text: self.text@ }
    }
}

/// The models of a sequence of items, in the same order.
pub open spec fn views(items: Seq<TodoItem>) -> Seq<TodoView> {
    items.map_values(|t: TodoItem| t@)
}

/// No two items of the sequence share an identifier.
pub open spec fn unique_ids(l: Seq<TodoView>) -> bool {
    forall|i: int, j: int| 0 <= i < j < l.len() ==> l[i].id != l[j].id
}

/// Relies on `uuid::Uuid::new_v4`: a fresh random version-4 UUID, given here
/// in its hyphenated textual form. The value comes from the process's source
/// of randomness, so nothing is promised of it; callers must check it against
/// the identifiers they already hold.
#[verifier::external_body]
fn fresh_id() -> String {
    uuid::Uuid::new_v4().to_string()
}

/// Content equality of two string slices.
pub fn str_eq(a: &str, b: &str) -> (r: bool)
    ensures
        r == (a@ == b@),
{
    let n = a.unicode_len();
    if n != b.unicode_len() {
        return false;
    }
    let mut i: usize = 0;
    while i < n
        invariant
            n == a@.len() == b@.len(),
            0 <= i <= n,
            forall|k: int| 0 <= k < i ==> a@[k] == b@[k],
        decreases n - i,
    {
        if a.get_char(i) != b.get_char(i) {
            return false;
        }
        i += 1;
    }
    proof {
        assert(a@ =~= b@);
    }
    true
}

impl TodoItem {
    /// A freshly created task: a newly generated identifier, not yet done,
    /// with the given text.
    pub fn new(text: &str) -> (t: TodoItem)
        ensures
            t.done == false,
            t@.text == text@,
    {
        TodoItem { id: fresh_id(), done: false, text: text.to_owned() }
    }

    /// A copy of the record, equal to it in the model.
    pub fn duplicate(&self) -> (t: TodoItem)
        ensures
            t@ == self@,
    {
        TodoItem { id: self.id.clone(), done: self.done, text: self.text.clone() }
    }
}

} // verus!
