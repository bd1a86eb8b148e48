//! The table of defined variables.

use vstd::prelude::*;

use crate::text::same;

verus! {

/// The variables defined so far, each name with its value. A later definition of a name
/// replaces the earlier one.
pub struct VarTable {
    entries: Vec<(String, String)>,
}

/// The map that a list of definitions gives, later definitions taking precedence.
pub open spec fn entries_map(e: Seq<(String, String)>) -> Map<Seq<char>, Seq<char>>
    decreases e.len(),
{
    if e.len() == 0 {
        Map::empty()
    } else {
        entries_map(e.drop_last()).insert(e.last().0@, e.last().1@)
    }
}

impl View for VarTable {
    type V = Map<Seq<char>, Seq<char>>;

    closed spec fn view(&self) -> Map<Seq<char>, Seq<char>> {
        entries_map(self.entries@)
    }
}

/// Definitions after position `i` that do not name `k` do not change what `k` maps to.
proof fn lemma_entries_tail(e: Seq<(String, String)>, k: Seq<char>, i: int)
    requires
        0 <= i <= e.len(),
        forall|j: int| i <= j < e.len() ==> (#[trigger] e[j]).0@ != k,
    ensures
        entries_map(e).contains_key(k) == entries_map(e.take(i)).contains_key(k),
        entries_map(e)[k] == entries_map(e.take(i))[k],
    decreases e.len() - i,
{
    if i < e.len() {
        assert(e.drop_last() =~= e.take(e.len() - 1));
        assert(e[e.len() - 1].0@ != k);
        lemma_entries_tail(e.drop_last(), k, i);
        assert(e.drop_last().take(i) =~= e.take(i));
    } else {
        assert(e.take(i) =~= e);
    }
}

proof fn lemma_entries_same_view(a: Seq<(String, String)>, b: Seq<(String, String)>)
    requires
        a.len() == b.len(),
        forall|j: int| 0 <= j < a.len() ==> (#[trigger] a[j]).0@ == b[j].0@ && a[j].1@ == b[j].1@,
    ensures
        entries_map(a) == entries_map(b),
    decreases a.len(),
{
    if a.len() > 0 {
        lemma_entries_same_view(a.drop_last(), b.drop_last());
        assert(a.last() == a[a.len() - 1]);
    }
}

impl VarTable {
    /// An empty table.
    pub fn new() -> (t: VarTable)
        ensures
            t@ == Map::<Seq<char>, Seq<char>>::empty(),
    {
        VarTable { entries: Vec::new() }
    }

    /// Defines `key` as `value`, replacing any earlier definition of `key`.
    pub fn insert(&mut self, key: String, value: String)
        ensures
            final(self)@ == old(self)@.insert(key@, value@),
    {
        let ghost old_entries = self.entries@;
        self.entries.push((key, value));
        assert(self.entries@.drop_last() =~= old_entries);
    }

    /// The value of `key`, if it is defined.
    pub fn get(&self, key: &str) -> (r: Option<&String>)
        ensures
            r is Some <==> self@.contains_key(key@),
            r matches Some(v) ==> v@ == self@[key@],
    {
        let mut i = self.entries.len();
        while i > 0
            invariant
                i <= self.entries@.len(),
                forall|j: int| i <= j < self.entries@.len() ==> (#[trigger] self.entries@[j]).0@ != key@,
            decreases i,
        {
            if same(self.entries[i - 1].0.as_str(), key) {
                proof {
                    let e = self.entries@;
                    lemma_entries_tail(e, key@, i as int);
                    assert(e.take(i as int).drop_last() =~= e.take(i - 1));
                    assert(e.take(i as int).last() == e[i - 1]);
                }
                return Some(&self.entries[i - 1].1);
            }
            i -= 1;
        }
        proof {
            lemma_entries_tail(self.entries@, key@, 0);
            assert(self.entries@.take(0).len() == 0);
        }
        None
    }

    /// A separate table with the same definitions.
    pub fn duplicate(&self) -> (r: VarTable)
        ensures
            r@ == self@,
    {
        let mut entries: Vec<(String, String)> = Vec::new();
        let mut i: usize = 0;
        while i < self.entries.len()
            invariant
                i <= self.entries@.len(),
                entries@.len() == i,
                forall|j: int|
                    0 <= j < i ==> (#[trigger] entries@[j]).0@ == self.entries@[j].0@
                        && entries@[j].1@ == self.entries@[j].1@,
            decreases self.entries@.len() - i,
        {
            let k = self.entries[i].0.clone();
            let v = self.entries[i].1.clone();
            entries.push((k, v));
            i += 1;
        }
        proof {
            lemma_entries_same_view(entries@, self.entries@);
        }
        VarTable { entries }
    }

    /// Whether `key` is defined.
    pub fn contains_key(&self, key: &str) -> (r: bool)
        ensures
            r == self@.contains_key(key@),
    {
        self.get(key).is_some()
    }
}

} // verus!
