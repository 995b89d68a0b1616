//! Values by name.

use vstd::prelude::*;

use crate::order::{
    is_order, key_views, order_by, precedes, text_less, text_order_is_total, Key, KeyView,
};
use crate::text::{chars_of, equals};

verus! {

/// Names, each with a value.
pub struct NameTable<V> {
    entries: Vec<(String, V)>,
}

/// The values by name; what was entered later counts.
spec fn table_of<V>(entries: Seq<(String, V)>) -> Map<Seq<char>, V>
    decreases entries.len(),
{
    if entries.len() == 0 {
        Map::empty()
    } else {
        table_of(entries.drop_last()).insert(entries.last().0@, entries.last().1)
    }
}

impl<V> View for NameTable<V> {
    type V = Map<Seq<char>, V>;

    closed spec fn view(&self) -> Map<Seq<char>, V> {
        table_of(self.entries@)
    }
}

proof fn lemma_entry<V>(entries: Seq<(String, V)>, i: int)
    requires
        0 <= i < entries.len(),
        forall|j: int| i < j < entries.len() ==> (#[trigger] entries[j]).0@ != entries[i].0@,
    ensures
        table_of(entries).contains_key(entries[i].0@),
        table_of(entries)[entries[i].0@] == entries[i].1,
    decreases entries.len(),
{
    if i < entries.len() - 1 {
        lemma_entry(entries.drop_last(), i);
        assert(entries.last() == entries[entries.len() - 1]);
    }
}

proof fn lemma_named<V>(entries: Seq<(String, V)>, name: Seq<char>)
    ensures
        table_of(entries).contains_key(name) <==> exists|i: int|
            0 <= i < entries.len() && (#[trigger] entries[i]).0@ == name,
    decreases entries.len(),
{
    if entries.len() > 0 {
        let rest = entries.drop_last();
        lemma_named(rest, name);
        if entries.last().0@ == name {
            assert(entries[entries.len() - 1].0@ == name);
        } else {
            if exists|i: int| 0 <= i < entries.len() && (#[trigger] entries[i]).0@ == name {
                let i = choose|i: int| 0 <= i < entries.len() && (#[trigger] entries[i]).0@ == name;
                assert(rest[i].0@ == name);
            }
            if exists|i: int| 0 <= i < rest.len() && (#[trigger] rest[i]).0@ == name {
                let i = choose|i: int| 0 <= i < rest.len() && (#[trigger] rest[i]).0@ == name;
                assert(entries[i].0@ == name);
            }
        }
    }
}

proof fn lemma_without<V>(entries: Seq<(String, V)>, i: int, name: Seq<char>, v: V)
    requires
        0 <= i < entries.len(),
        entries[i].0@ == name,
    ensures
        table_of(entries.remove(i)).insert(name, v) == table_of(entries).insert(name, v),
    decreases entries.len(),
{
    let rest = entries.remove(i);
    if i == entries.len() - 1 {
        assert(rest =~= entries.drop_last());
    } else {
        lemma_without(entries.drop_last(), i, name, v);
        assert(rest.drop_last() =~= entries.drop_last().remove(i));
        let last = entries.last();
        let a = table_of(rest.drop_last());
        let b = table_of(entries.drop_last());
        let x = a.insert(last.0@, last.1).insert(name, v);
        let y = b.insert(last.0@, last.1).insert(name, v);
        assert forall|n: Seq<char>| x.dom().contains(n) == #[trigger] y.dom().contains(n) && (
        x.dom().contains(n) ==> x[n] == y[n]) by {
            assert(a.insert(name, v).dom().contains(n) == b.insert(name, v).dom().contains(n));
            assert(a.insert(name, v)[n] == b.insert(name, v)[n]);
        }
        assert(x =~= y);
    }
    assert(table_of(rest).insert(name, v) =~= table_of(entries).insert(name, v));
}

/// Whether a list names all entries of a table once, in the order of the names.
pub open spec fn is_listing<V>(list: Seq<(Seq<char>, V)>, table: Map<Seq<char>, V>) -> bool {
    &&& forall|i: int, j: int|
        0 <= i < j < list.len() ==> text_less((#[trigger] list[i]).0, (#[trigger] list[j]).0)
    &&& forall|i: int|
        0 <= i < list.len() ==> table.contains_key((#[trigger] list[i]).0) && table[list[i].0]
            == list[i].1
    &&& forall|name: Seq<char>| #[trigger]
        table.contains_key(name) ==> exists|i: int|
            0 <= i < list.len() && (#[trigger] list[i]).0 == name
}

/// The names and values of a list.
pub open spec fn named<V>(list: Seq<(String, V)>) -> Seq<(Seq<char>, V)> {
    list.map_values(|e: (String, V)| (e.0@, e.1))
}

impl<V: Copy> NameTable<V> {
    /// Whether no name has two entries.
    pub closed spec fn wf(&self) -> bool {
        forall|i: int, j: int|
            0 <= i < j < self.entries@.len() ==> (#[trigger] self.entries@[i]).0@ != (
            #[trigger] self.entries@[j]).0@
    }

    /// A table without names.
    pub fn new() -> (table: NameTable<V>)
        ensures
            table@ == Map::<Seq<char>, V>::empty(),
            table.wf(),
    {
        NameTable { entries: Vec::new() }
    }

    fn position(&self, name: &str) -> (r: Option<usize>)
        ensures
            match r {
                Some(i) => i < self.entries@.len() && self.entries@[i as int].0@ == name@,
                None => forall|i: int|
                    0 <= i < self.entries@.len() ==> (#[trigger] self.entries@[i]).0@ != name@,
            },
    {
        let wanted = chars_of(name);
        let mut i: usize = 0;
        while i < self.entries.len()
            invariant
                i <= self.entries@.len(),
                wanted@ == name@,
                forall|k: int| 0 <= k < i ==> (#[trigger] self.entries@[k]).0@ != name@,
            decreases self.entries.len() - i,
        {
            if equals(wanted.as_slice(), self.entries[i].0.as_str()) {
                return Some(i);
            }
            i += 1;
        }
        None
    }

    /// The value of a name.
    pub fn get(&self, name: &str) -> (r: Option<V>)
        requires
            self.wf(),
        ensures
            match r {
                Some(v) => self@.contains_key(name@) && self@[name@] == v,
                None => !self@.contains_key(name@),
            },
    {
        match self.position(name) {
            Some(i) => {
                proof {
                    lemma_entry(self.entries@, i as int);
                }
                Some(self.entries[i].1)
            },
            None => {
                proof {
                    lemma_named(self.entries@, name@);
                }
                None
            },
        }
    }

    /// Enters a value under a name, in place of the one that stood there.
    pub fn insert(&mut self, name: &str, v: V)
        requires
            old(self).wf(),
        ensures
            final(self)@ == old(self)@.insert(name@, v),
            final(self).wf(),
    {
        let ghost before = self.entries@;
        match self.position(name) {
            Some(i) => {
                self.entries.remove(i);
                let ghost rest = self.entries@;
                self.entries.push((name.to_owned(), v));
                proof {
                    lemma_without(before, i as int, name@, v);
                    assert(self.entries@.drop_last() =~= rest);
                    assert(rest == before.remove(i as int));
                    assert forall|j: int| 0 <= j < rest.len() implies (#[trigger] rest[j]).0@
                        != name@ by {
                        if j < i {
                            assert(rest[j] == before[j]);
                        } else {
                            assert(rest[j] == before[j + 1]);
                        }
                    }
                }
            },
            None => {
                self.entries.push((name.to_owned(), v));
                assert(self.entries@.drop_last() =~= before);
            },
        }
    }

    /// The names in their order, each with its value.
    pub fn listed(&self) -> (list: Vec<(String, V)>)
        requires
            self.wf(),
        ensures
            is_listing(named(list@), self@),
    {
        let mut keys: Vec<Key> = Vec::new();
        let ghost wanted = Seq::new(
            self.entries@.len(),
            |i: int| KeyView::Text(self.entries@[i].0@),
        );
        let mut i: usize = 0;
        while i < self.entries.len()
            invariant
                i <= self.entries@.len(),
                keys@.len() == i,
                wanted == Seq::new(
                    self.entries@.len(),
                    |i: int| KeyView::Text(self.entries@[i].0@),
                ),
                forall|k: int| 0 <= k < i ==> (#[trigger] keys@[k])@ == wanted[k],
            decreases self.entries.len() - i,
        {
            let key = Key::Text(chars_of(self.entries[i].0.as_str()));
            assert(key@ == wanted[i as int]);
            keys.push(key);
            i += 1;
        }
        assert(key_views(keys@) =~= wanted);
        let order = order_by(&keys, false);
        let mut list: Vec<(String, V)> = Vec::new();
        let mut i: usize = 0;
        while i < order.len()
            invariant
                i <= order@.len(),
                is_order(order@, wanted, false),
                wanted.len() == self.entries@.len(),
                list@.len() == i,
                forall|k: int|
                    0 <= k < i ==> (#[trigger] list@[k]).0@ == self.entries@[order@[k] as int].0@
                        && list@[k].1 == self.entries@[order@[k] as int].1,
            decreases order.len() - i,
        {
            let at = order[i];
            list.push((self.entries[at].0.clone(), self.entries[at].1));
            i += 1;
        }
        proof {
            let out = named(list@);
            let entries = self.entries@;
            assert forall|i: int, j: int| 0 <= i < j < out.len() implies text_less(
                (#[trigger] out[i]).0,
                (#[trigger] out[j]).0,
            ) by {
                let a = order@[i] as int;
                let b = order@[j] as int;
                assert(precedes(wanted, false, a, b));
                assert(a != b);
                assert(entries[a].0@ != entries[b].0@);
                text_order_is_total(entries[a].0@, entries[b].0@);
            }
            assert forall|i: int| 0 <= i < out.len() implies self@.contains_key((#[trigger] out[i]).0)
                && self@[out[i].0] == out[i].1 by {
                let a = order@[i] as int;
                lemma_entry(entries, a);
            }
            assert forall|name: Seq<char>| #[trigger] self@.contains_key(name) implies exists|i: int|
                0 <= i < out.len() && (#[trigger] out[i]).0 == name by {
                lemma_named(entries, name);
                let a = choose|a: int| 0 <= a < entries.len() && (#[trigger] entries[a]).0@ == name;
                assert(order@.contains(a as usize));
                let i = choose|i: int| 0 <= i < order@.len() && order@[i] == a as usize;
                assert(out[i].0 == name);
            }
        }
        list
    }
}

/// A table has one listing only.
pub proof fn listings_are_unique<V>(
    one: Seq<(Seq<char>, V)>,
    other: Seq<(Seq<char>, V)>,
    table: Map<Seq<char>, V>,
)
    requires
        is_listing(one, table),
        is_listing(other, table),
    ensures
        one == other,
{
    lemma_listing_begins(one, other, table, one.len() as int);
    lemma_listing_begins(other, one, table, other.len() as int);
    assert(one =~= other);
}

proof fn lemma_listing_begins<V>(
    one: Seq<(Seq<char>, V)>,
    other: Seq<(Seq<char>, V)>,
    table: Map<Seq<char>, V>,
    n: int,
)
    requires
        is_listing(one, table),
        is_listing(other, table),
        0 <= n <= one.len(),
    ensures
        n <= other.len(),
        forall|i: int| 0 <= i < n ==> one[i] == other[i],
    decreases n,
{
    if n > 0 {
        lemma_listing_begins(one, other, table, n - 1);
        let k = n - 1;
        let name = one[k].0;
        let p = choose|p: int| 0 <= p < other.len() && (#[trigger] other[p]).0 == name;
        if p < k {
            assert(one[p] == other[p]);
            assert(text_less(one[p].0, one[k].0));
            crate::order::lemma_text_less_asymmetric(name, name);
        }
        if p > k {
            let found = other[k].0;
            let q = choose|q: int| 0 <= q < one.len() && (#[trigger] one[q]).0 == found;
            assert(text_less(other[k].0, other[p].0));
            if q < k {
                assert(one[q] == other[q]);
                assert(text_less(other[q].0, other[k].0));
                crate::order::lemma_text_less_asymmetric(found, found);
            } else if q > k {
                assert(text_less(one[k].0, one[q].0));
                crate::order::lemma_text_less_asymmetric(name, found);
            } else {
                crate::order::lemma_text_less_asymmetric(name, name);
            }
        }
        assert(other[k].0 == one[k].0);
        assert(table[one[k].0] == one[k].1);
        assert(table[other[k].0] == other[k].1);
    }
}

} // verus!
