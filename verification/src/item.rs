//! The things being drafted. The engine never inspects anything about an
//! item except its name, which is the sole identity used for equality and
//! lookup across a whole draft.

use vstd::prelude::*;

verus! {

/// Capability to implement on any type that represents a drafted thing: it
/// must produce a stable, unique name. Convert such a value with
/// [`Draftable::from_item`] before handing it to a league.
pub trait DraftItem {
    /// The unique name of this item.
    fn name(&self) -> &str;
}

/// An item held inside a draft: the engine's own record of a drafted thing,
/// reduced to the one attribute the engine reads, its name.
pub struct Draftable {
    name: String,
}

impl View for Draftable {
    type V = Seq<char>;

    closed spec fn view(&self) -> Seq<char> {
        self.name@
    }
}

impl Draftable {
    /// Wraps a name as a draftable item.
    pub fn new(name: String) -> (d: Draftable)
        ensures
            d@ == name@,
    {
        Draftable { name }
    }

    /// Builds the engine's record of any external item. Whatever name the
    /// external implementation reports becomes the item's identity; nothing
    /// further is assumed of it, so this constructor carries no contract.
    /// Verified callers that already hold the name should use
    /// [`Draftable::new`], whose contract pins the item's name.
    pub fn from_item<T: DraftItem>(item: &T) -> Draftable {
        Draftable { name: item.name().to_owned() }
    }

    /// The unique name of this item.
    pub fn name(&self) -> (r: &str)
        ensures
            r@ == self@,
    {
        self.name.as_str()
    }

    /// A copy of the name as an owned string.
    pub fn name_owned(&self) -> (r: String)
        ensures
            r@ == self@,
    {
        self.name.clone()
    }
}

impl DraftItem for Draftable {
    fn name(&self) -> &str {
        self.name.as_str()
    }
}

impl Clone for Draftable {
    /// The copy carries the same name.
    fn clone(&self) -> (r: Self)
        ensures
            r == *self,
    {
        Draftable { name: self.name.clone() }
    }
}

/// Copies of all items of a pick list, in order.
pub(crate) fn clone_items(v: &Vec<Draftable>) -> (r: Vec<Draftable>)
    ensures
        r@ == v@,
{
    let mut r: Vec<Draftable> = Vec::new();
    let mut i: usize = 0;
    let n = v.len();
    while i < n
        invariant
            n == v@.len(),
            i <= n,
            r@ == v@.take(i as int),
        decreases n - i,
    {
        r.push(v[i].clone());
        proof {
            assert(r@ =~= v@.take(i + 1));
        }
        i = i + 1;
    }
    proof {
        assert(v@.take(n as int) =~= v@);
    }
    r
}

/// Copies of all items of a queue, front first.
pub(crate) fn clone_queue_items(q: &std::collections::VecDeque<Draftable>) -> (r: Vec<Draftable>)
    ensures
        r@ == q@,
{
    let mut r: Vec<Draftable> = Vec::new();
    let mut i: usize = 0;
    let n = q.len();
    while i < n
        invariant
            n == q@.len(),
            i <= n,
            r@ == q@.take(i as int),
        decreases n - i,
    {
        r.push(q[i].clone());
        proof {
            assert(r@ =~= q@.take(i + 1));
        }
        i = i + 1;
    }
    proof {
        assert(q@.take(n as int) =~= q@);
    }
    r
}

/// Whether two string slices hold the same character sequence.
pub(crate) fn str_eq(a: &str, b: &str) -> (r: bool)
    ensures
        r == (a@ == b@),
{
    a.to_owned() == b.to_owned()
}

} // verus!
