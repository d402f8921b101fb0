use std::collections::HashMap;
use vstd::prelude::*;
use vstd::std_specs::iter::IteratorSpec;

use crate::string_builder::{fragment, joined, StringBuilder};

verus! {

broadcast use vstd::function::group_function_axioms;

/// One node of a menu: a named entry that owns its sub-entries.
pub struct MenuItem {
    pub name: String,
    pub description: String,
    pub items: Vec<MenuItem>,
    pub params: Option<HashMap<String, String>>,
}

/// The nodes of `m`'s subtree in the order a walk visits them: the walks of the
/// children, left to right, and then `m` itself.
pub open spec fn post_order(m: MenuItem) -> Seq<MenuItem>
    decreases m,
{
    forest_post_order(m.items@) + seq![m]
}

/// The walks of the trees of `s`, one after another, from left to right.
pub open spec fn forest_post_order(s: Seq<MenuItem>) -> Seq<MenuItem>
    decreases s,
{
    if s.len() == 0 {
        Seq::empty()
    } else {
        forest_post_order(s.drop_last()) + post_order(s.last())
    }
}

/// The number of nodes in `m`'s subtree, `m` included.
pub open spec fn count_nodes(m: MenuItem) -> nat
    decreases m,
{
    1 + forest_count(m.items@)
}

/// The number of nodes in the trees of `s`, all together.
pub open spec fn forest_count(s: Seq<MenuItem>) -> nat
    decreases s,
{
    if s.len() == 0 {
        0
    } else {
        forest_count(s.drop_last()) + count_nodes(s.last())
    }
}

/// The fragments of a node's label: its name, its description, and then one
/// fragment for each `(key, value)` entry, in the order given.
pub open spec fn label_parts(
    name: Seq<char>,
    description: Seq<char>,
    entries: Seq<(Seq<char>, Seq<char>)>,
) -> Seq<Seq<char>> {
    seq![fragment("Name"@, name), fragment("Description"@, description)] + entries.map_values(
        |e: (Seq<char>, Seq<char>)| fragment(e.0, e.1),
    )
}

/// The entries as pairs of character sequences.
pub open spec fn entries_view(entries: Seq<(String, String)>) -> Seq<(Seq<char>, Seq<char>)> {
    entries.map_values(|e: (String, String)| (e.0@, e.1@))
}

/// `entries` lists every entry of `m` exactly once, in some order.
pub open spec fn lists_map(m: Map<String, String>, entries: Seq<(String, String)>) -> bool {
    &&& entries.len() == m.len()
    &&& forall|i: int|
        0 <= i < entries.len() ==> m.contains_key(#[trigger] entries[i].0) && m[entries[i].0]
            == entries[i].1
    &&& forall|i: int, j: int|
        0 <= i < j < entries.len() ==> #[trigger] entries[i].0 != #[trigger] entries[j].0
}

/// `entries` lists the node's params: nothing when they are absent.
pub open spec fn lists_params(
    params: Option<HashMap<String, String>>,
    entries: Seq<(String, String)>,
) -> bool {
    match params {
        None => entries.len() == 0,
        Some(m) => lists_map(m@, entries),
    }
}

/// Relies on `HashMap::iter`: it visits each key-value pair of the map once,
/// in an order that the map chooses.
#[verifier::external_body]
fn map_entries(m: &HashMap<String, String>) -> (r: Vec<(String, String)>)
    ensures
        lists_map(m@, r@),
{
    m.iter().map(|(k, v)| (k.clone(), v.clone())).collect()
}

/// `outs` holds, position by position, what `f` returned when it was handed the
/// node at the same position of `nodes`: one call per node, in that order.
pub open spec fn visited_by<R, F: FnMut(&MenuItem) -> R>(
    f: F,
    nodes: Seq<MenuItem>,
    outs: Seq<R>,
) -> bool {
    &&& outs.len() == nodes.len()
    &&& forall|j: int| 0 <= j < nodes.len() ==> call_ensures(f, (&nodes[j],), #[trigger] outs[j])
}

/// Visits recorded for two runs of nodes, one after the other, are the visits
/// of the joined run.
proof fn lemma_visited_by_concat<R, F: FnMut(&MenuItem) -> R>(
    f: F,
    a: Seq<MenuItem>,
    b: Seq<MenuItem>,
    x: Seq<R>,
    y: Seq<R>,
)
    requires
        visited_by(f, a, x),
        visited_by(f, b, y),
    ensures
        visited_by(f, a + b, x + y),
{
    assert forall|j: int| 0 <= j < (a + b).len() implies call_ensures(
        f,
        (&(a + b)[j],),
        #[trigger] (x + y)[j],
    ) by {
        if j < a.len() {
            assert((a + b)[j] == a[j]);
            assert((x + y)[j] == x[j]);
        } else {
            assert((a + b)[j] == b[j - a.len()]);
            assert((x + y)[j] == y[j - a.len()]);
        }
    }
}

/// Walking the trees of `a` and then those of `b` is walking the trees of `a + b`.
proof fn lemma_forest_post_order_append(a: Seq<MenuItem>, b: Seq<MenuItem>)
    ensures
        forest_post_order(a + b) == forest_post_order(a) + forest_post_order(b),
    decreases b.len(),
{
    if b.len() == 0 {
        assert(a + b =~= a);
        assert(forest_post_order(a) + forest_post_order(b) =~= forest_post_order(a));
    } else {
        assert((a + b).drop_last() =~= a + b.drop_last());
        assert((a + b).last() == b.last());
        lemma_forest_post_order_append(a, b.drop_last());
        assert(forest_post_order(a + b) =~= forest_post_order(a) + forest_post_order(b));
    }
}

proof fn lemma_forest_len(s: Seq<MenuItem>)
    ensures
        forest_post_order(s).len() == forest_count(s),
    decreases s,
{
    if s.len() != 0 {
        lemma_forest_len(s.drop_last());
        lemma_walk_visits_count_nodes(s.last());
    }
}

/// A walk visits exactly as many nodes as the tree holds.
pub proof fn lemma_walk_visits_count_nodes(t: MenuItem)
    ensures
        post_order(t).len() == count_nodes(t),
    decreases t,
{
    lemma_forest_len(t.items@);
}

/// The root is the last node a walk visits.
pub proof fn lemma_walk_ends_at_root(t: MenuItem)
    ensures
        post_order(t).len() >= 1,
        post_order(t).last() == t,
{
}

/// The walk of a node's `i`-th child stands in the node's walk as one unbroken
/// block; the block of the next child starts right after it, and the node
/// itself comes after the blocks of all its children.
pub proof fn lemma_child_walks_in_order(n: MenuItem, i: int)
    requires
        0 <= i < n.items@.len(),
    ensures
        ({
            let start = forest_post_order(n.items@.subrange(0, i)).len() as int;
            let end = start + post_order(n.items@[i]).len();
            &&& post_order(n).subrange(start, end) == post_order(n.items@[i])
            &&& end == forest_post_order(n.items@.subrange(0, i + 1)).len()
            &&& end < post_order(n).len()
            &&& forest_post_order(n.items@).len() == post_order(n).len() - 1
        }),
{
    let kids = n.items@;
    let before = kids.subrange(0, i);
    let upto = kids.subrange(0, i + 1);
    let after = kids.subrange(i + 1, kids.len() as int);
    assert(upto.drop_last() =~= before);
    assert(upto.last() == kids[i]);
    assert(kids =~= upto + after);
    lemma_forest_post_order_append(upto, after);
    let start = forest_post_order(before).len() as int;
    let end = start + post_order(kids[i]).len();
    assert(post_order(n) =~= forest_post_order(before) + post_order(kids[i]) + forest_post_order(after) + seq![n]);
    assert(post_order(n).subrange(start, end) =~= post_order(kids[i]));
}

/// A node without children, walked alone, is visited once and nothing else is.
pub proof fn lemma_leaf_walk(t: MenuItem)
    requires
        t.items@.len() == 0,
    ensures
        post_order(t) == seq![t],
{
    assert(post_order(t) =~= seq![t]);
}

/// A tree of items that can be walked in post-order with one shared visitor.
pub trait Item: Sized {
    /// The nodes in the order `walk_all` hands them to the visitor.
    spec fn walk_order(&self) -> Seq<MenuItem>;

    /// Hands every node of the tree to `f` exactly once, each child's whole
    /// subtree before the next child's, and a node after all of its
    /// descendants. Returns what `f` returned, in the order of the calls.
    fn walk_all<R, F: FnMut(&MenuItem) -> R>(&self, f: F) -> (outs: Vec<R>)
        requires
            forall|m: &MenuItem| f.requires((m,)),
        ensures
            visited_by(f, self.walk_order(), outs@),
    ;
}

impl MenuItem {
    /// The immediate children, in the order they were built.
    pub fn iter(&self) -> (it: std::slice::Iter<'_, MenuItem>)
        ensures
            it.remaining() == self.items@.as_ref(),
    {
        self.items.iter()
    }

    /// The node's label built from the given params entries: its name, its
    /// description and each entry, in this order.
    pub fn label_with(&self, entries: &Vec<(String, String)>) -> (r: String)
        ensures
            r@ == joined(label_parts(self.name@, self.description@, entries_view(entries@))),
    {
        let mut b = StringBuilder::new().add("Name", Some(self.name.clone())).add(
            "Description",
            Some(self.description.clone()),
        );
        let mut i: usize = 0;
        while i < entries.len()
            invariant
                i <= entries@.len(),
                b@ == label_parts(
                    self.name@,
                    self.description@,
                    entries_view(entries@.subrange(0, i as int)),
                ),
            decreases entries@.len() - i,
        {
            let entry = &entries[i];
            b = b.add(entry.0.as_str(), Some(entry.1.clone()));
            assert(entries_view(entries@.subrange(0, i + 1)) =~= entries_view(
                entries@.subrange(0, i as int),
            ).push((entry.0@, entry.1@)));
            assert(b@ =~= label_parts(
                self.name@,
                self.description@,
                entries_view(entries@.subrange(0, i + 1)),
            ));
            i += 1;
        }
        assert(entries@.subrange(0, entries@.len() as int) =~= entries@);
        b.get_str()
    }

    /// The node's label: its name, its description and each params entry,
    /// the entries in the order the params map yields them.
    pub fn label(&self) -> (r: String)
        ensures
            exists|entries: Seq<(String, String)>|
                lists_params(self.params, entries) && r@ == joined(
                    label_parts(self.name@, self.description@, entries_view(entries)),
                ),
    {
        let entries: Vec<(String, String)> = match &self.params {
            None => Vec::new(),
            Some(m) => map_entries(m),
        };
        let r = self.label_with(&entries);
        assert(lists_params(self.params, entries@));
        r
    }

    /// Walks the subtrees of the children, left to right, and returns what `f`
    /// returned for each node visited, in the order of the calls.
    fn deep_walk<R, F: FnMut(&MenuItem) -> R>(&self, f: &mut F) -> (outs: Vec<R>)
        requires
            forall|m: &MenuItem| (*old(f)).requires((m,)),
        ensures
            *final(f) == *old(f),
            visited_by(*old(f), forest_post_order(self.items@), outs@),
        decreases self,
    {
        let mut outs: Vec<R> = Vec::new();
        let mut i: usize = 0;
        while i < self.items.len()
            invariant
                i <= self.items@.len(),
                *f == *old(f),
                forall|m: &MenuItem| (*f).requires((m,)),
                visited_by(*f, forest_post_order(self.items@.subrange(0, i as int)), outs@),
            decreases self.items@.len() - i,
        {
            let item = &self.items[i];
            let mut below: Vec<R> = if item.items.len() != 0 {
                item.deep_walk(f)
            } else {
                Vec::new()
            };
            let ghost prev = outs@;
            let ghost sub = below@;
            outs.append(&mut below);
            let r = f(item);
            outs.push(r);
            proof {
                let done = self.items@.subrange(0, i as int);
                let next = self.items@.subrange(0, i + 1);
                assert(next.drop_last() =~= done);
                assert(next.last() == *item);
                assert(post_order(*item) == forest_post_order(item.items@) + seq![*item]);
                lemma_visited_by_concat(*f, forest_post_order(done), forest_post_order(item.items@), prev, sub);
                assert(visited_by(*f, seq![*item], seq![r]));
                lemma_visited_by_concat(
                    *f,
                    forest_post_order(done) + forest_post_order(item.items@),
                    seq![*item],
                    prev + sub,
                    seq![r],
                );
                assert(outs@ =~= prev + sub + seq![r]);
                assert(forest_post_order(next) =~= forest_post_order(done) + forest_post_order(item.items@) + seq![*item]);
            }
            i += 1;
        }
        assert(self.items@.subrange(0, self.items@.len() as int) =~= self.items@);
        outs
    }
}

impl IntoIterator for MenuItem {
    type Item = MenuItem;
    type IntoIter = std::vec::IntoIter<MenuItem>;

    /// The immediate children, taken out of the node, in the order they were built.
    fn into_iter(self) -> (it: std::vec::IntoIter<MenuItem>)
        ensures
            it.remaining() == self.items@,
    {
        self.items.into_iter()
    }
}

impl Item for MenuItem {
    open spec fn walk_order(&self) -> Seq<MenuItem> {
        post_order(*self)
    }

    fn walk_all<R, F: FnMut(&MenuItem) -> R>(&self, mut f: F) -> (outs: Vec<R>) {
        let mut outs: Vec<R> = if self.items.len() != 0 {
            self.deep_walk(&mut f)
        } else {
            Vec::new()
        };
        let ghost mid = outs@;
        let r = f(self);
        outs.push(r);
        proof {
            if self.items.len() == 0 {
                assert(mid =~= Seq::<R>::empty());
            }
            assert(visited_by(f, seq![*self], seq![r]));
            lemma_visited_by_concat(f, forest_post_order(self.items@), seq![*self], mid, seq![r]);
            assert(outs@ =~= mid + seq![r]);
        }
        outs
    }
}

} // verus!
