//! A small string-keyed table that can be walked in a fixed order.
use vstd::prelude::*;

use crate::text::{copy_text, same_text};

verus! {

/// The map that a list of rows spells, later rows over earlier ones.
pub open spec fn table_of<V>(rows: Seq<(Seq<char>, V)>) -> Map<Seq<char>, V>
    decreases rows.len(),
{
    if rows.len() == 0 {
        Map::empty()
    } else {
        table_of(rows.drop_last()).insert(rows.last().0, rows.last().1)
    }
}

/// No key stands in two rows.
pub open spec fn distinct_keys<V>(rows: Seq<(Seq<char>, V)>) -> bool {
    forall|i: int, j: int|
        0 <= i < j < rows.len() ==> (#[trigger] rows[i]).0 != (#[trigger] rows[j]).0
}

/// With distinct keys each row is an entry of the map and each entry a row.
pub proof fn lemma_table<V>(rows: Seq<(Seq<char>, V)>)
    requires
        distinct_keys(rows),
    ensures
        forall|i: int|
            0 <= i < rows.len() ==> table_of(rows).contains_key((#[trigger] rows[i]).0) && table_of(
                rows,
            )[rows[i].0] == rows[i].1,
        forall|k: Seq<char>| #[trigger]
            table_of(rows).contains_key(k) ==> exists|i: int|
                0 <= i < rows.len() && (#[trigger] rows[i]).0 == k,
        table_of(rows).dom().finite(),
        table_of(rows).dom().len() == rows.len(),
    decreases rows.len(),
{
    if rows.len() > 0 {
        let front = rows.drop_last();
        assert forall|i: int, j: int| 0 <= i < j < front.len() implies (#[trigger] front[i]).0 != (
        #[trigger] front[j]).0 by {
            assert(rows[i].0 != rows[j].0);
        }
        lemma_table(front);
        let last = rows.len() - 1;
        assert forall|i: int| 0 <= i < rows.len() implies table_of(rows).contains_key(
            (#[trigger] rows[i]).0,
        ) && table_of(rows)[rows[i].0] == rows[i].1 by {
            if i < last {
                assert(front[i] == rows[i]);
                assert(rows[i].0 != rows[last].0);
            }
        }
        assert forall|k: Seq<char>| #[trigger] table_of(rows).contains_key(k) implies exists|i: int|
            0 <= i < rows.len() && (#[trigger] rows[i]).0 == k by {
            if k == rows[last].0 {
            } else {
                assert(table_of(front).contains_key(k));
                let i = choose|i: int| 0 <= i < front.len() && (#[trigger] front[i]).0 == k;
                assert(rows[i].0 == k);
            }
        }
        if table_of(front).contains_key(rows[last].0) {
            let i = choose|i: int| 0 <= i < front.len() && (#[trigger] front[i]).0 == rows[last].0;
            assert(rows[i].0 != rows[last].0);
        }
        assert(table_of(rows).dom() =~= table_of(front).dom().insert(rows[last].0));
    }
}

/// Taking a row out takes its key out of the map.
pub proof fn lemma_table_remove<V>(rows: Seq<(Seq<char>, V)>, at: int)
    requires
        distinct_keys(rows),
        0 <= at < rows.len(),
    ensures
        distinct_keys(rows.remove(at)),
        table_of(rows.remove(at)) == table_of(rows).remove(rows[at].0),
{
    let less = rows.remove(at);
    assert forall|i: int, j: int| 0 <= i < j < less.len() implies (#[trigger] less[i]).0 != (
    #[trigger] less[j]).0 by {
        let a = if i < at { i } else { i + 1 };
        let b = if j < at { j } else { j + 1 };
        assert(less[i] == rows[a] && less[j] == rows[b]);
    }
    lemma_table(rows);
    lemma_table(less);
    let left = table_of(less);
    let right = table_of(rows).remove(rows[at].0);
    assert forall|k: Seq<char>| left.contains_key(k) == right.contains_key(k) by {
        if left.contains_key(k) {
            let i = choose|i: int| 0 <= i < less.len() && (#[trigger] less[i]).0 == k;
            let a = if i < at { i } else { i + 1 };
            assert(rows[a] == less[i]);
            assert(rows[a].0 != rows[at].0);
        }
        if right.contains_key(k) {
            let a = choose|a: int| 0 <= a < rows.len() && (#[trigger] rows[a]).0 == k;
            let i = if a < at { a } else { a - 1 };
            assert(less[i] == rows[a]);
        }
    }
    assert forall|k: Seq<char>| #[trigger] left.contains_key(k) implies left[k] == right[k] by {
        let i = choose|i: int| 0 <= i < less.len() && (#[trigger] less[i]).0 == k;
        let a = if i < at { i } else { i + 1 };
        assert(rows[a] == less[i]);
    }
    assert(left.dom() =~= right.dom());
    assert(left =~= right);
}

/// A map from strings, kept as a list of rows with distinct keys.
#[verifier::reject_recursive_types(V)]
#[derive(Debug)]
pub struct Table<V> {
    entries: Vec<(String, V)>,
}

impl<V> View for Table<V> {
    type V = Map<Seq<char>, V>;

    open spec fn view(&self) -> Map<Seq<char>, V> {
        table_of(self.rows())
    }
}

impl<V> Table<V> {
    /// The rows in the order in which they are walked.
    pub closed spec fn rows(&self) -> Seq<(Seq<char>, V)> {
        self.entries@.map_values(|e: (String, V)| (e.0@, e.1))
    }

    #[verifier::type_invariant]
    spec fn well_formed(self) -> bool {
        distinct_keys(self.rows())
    }

    pub fn new() -> (r: Table<V>)
        ensures
            r@ == Map::<Seq<char>, V>::empty(),
            r.rows().len() == 0,
    {
        Table { entries: Vec::new() }
    }

    /// How many rows there are.
    pub fn len(&self) -> (r: usize)
        ensures
            r == self.rows().len(),
            distinct_keys(self.rows()),
            self@.dom().finite() && self@.dom().len() == r,
    {
        proof {
            use_type_invariant(self);
            lemma_table(self.rows());
        }
        self.entries.len()
    }

    /// The row at a place.
    pub fn row(&self, i: usize) -> (r: (&String, &V))
        requires
            i < self.rows().len(),
        ensures
            r.0@ == self.rows()[i as int].0,
            *r.1 == self.rows()[i as int].1,
            self@.contains_key(r.0@) && self@[r.0@] == *r.1,
    {
        proof {
            use_type_invariant(self);
            lemma_table(self.rows());
        }
        let e = &self.entries[i];
        (&e.0, &e.1)
    }

    fn find(&self, k: &str) -> (r: Option<usize>)
        ensures
            match r {
                Some(i) => i < self.rows().len() && self.rows()[i as int].0 == k@,
                None => !self@.contains_key(k@),
            },
    {
        proof {
            use_type_invariant(self);
            lemma_table(self.rows());
        }
        let mut i: usize = 0;
        while i < self.entries.len()
            invariant
                i <= self.entries.len(),
                forall|j: int| 0 <= j < i ==> (#[trigger] self.rows()[j]).0 != k@,
            decreases self.entries.len() - i,
        {
            assert(self.rows()[i as int].0 == self.entries@[i as int].0@);
            if same_text(self.entries[i].0.as_str(), k) {
                return Some(i);
            }
            i += 1;
        }
        None
    }

    /// The value under a key.
    pub fn get(&self, k: &str) -> (r: Option<&V>)
        ensures
            match r {
                Some(v) => self@.contains_key(k@) && *v == self@[k@],
                None => !self@.contains_key(k@),
            },
    {
        match self.find(k) {
            Some(i) => Some(self.row(i).1),
            None => None,
        }
    }

    /// Takes a key and its value out.
    pub fn remove(&mut self, k: &str)
        ensures
            final(self)@ == old(self)@.remove(k@),
    {
        proof {
            use_type_invariant(&*self);
        }
        match self.find(k) {
            Some(i) => {
                let ghost before = self.rows();
                proof {
                    lemma_table_remove(before, i as int);
                    assert(before.remove(i as int) =~= self.entries@.remove(i as int).map_values(
                        |e: (String, V)| (e.0@, e.1),
                    ));
                }
                let mut rows: Vec<(String, V)> = Vec::new();
                core::mem::swap(&mut rows, &mut self.entries);
                let _ = rows.remove(i);
                self.entries = rows;
            },
            None => {
                assert(self@.remove(k@) =~= self@);
            },
        }
    }

    /// Puts a value under a key in place of the one that stood there.
    pub fn insert(&mut self, k: String, v: V)
        ensures
            final(self)@ == old(self)@.insert(k@, v),
    {
        self.remove(k.as_str());
        proof {
            use_type_invariant(&*self);
            lemma_table(self.rows());
        }
        let ghost before = self.rows();
        let ghost after = before.push((k@, v));
        let mut rows: Vec<(String, V)> = Vec::new();
        core::mem::swap(&mut rows, &mut self.entries);
        let ghost entries = rows@;
        rows.push((k, v));
        proof {
            assert(rows@.map_values(|e: (String, V)| (e.0@, e.1)) =~= after);
            assert(after.drop_last() =~= before);
            assert forall|i: int, j: int| 0 <= i < j < after.len() implies (#[trigger] after[i]).0
                != (#[trigger] after[j]).0 by {
                if j == before.len() {
                    assert(table_of(before).contains_key(before[i].0));
                } else {
                    assert(before[i].0 != before[j].0);
                }
            }
        }
        self.entries = rows;
        assert(self@ =~= old(self)@.insert(k@, v));
    }
}

impl Table<Option<String>> {
    /// A table with the same rows.
    pub fn copied(&self) -> (r: Table<Option<String>>)
        ensures
            r@ == self@,
    {
        let n = self.len();
        let mut out: Table<Option<String>> = Table::new();
        let mut i: usize = 0;
        assert(self.rows().take(0) =~= Seq::<(Seq<char>, Option<String>)>::empty());
        while i < n
            invariant
                i <= n,
                n == self.rows().len(),
                out@ == table_of(self.rows().take(i as int)),
            decreases n - i,
        {
            let ghost next = self.rows().take(i + 1);
            assert(next.drop_last() =~= self.rows().take(i as int));
            let (k, v) = self.row(i);
            out.insert(k.clone(), copy_text(v));
            i += 1;
        }
        assert(self.rows().take(n as int) =~= self.rows());
        out
    }
}

impl Table<usize> {
    /// A table with the same rows.
    pub fn copied_counts(&self) -> (r: Table<usize>)
        ensures
            r@ == self@,
    {
        let n = self.len();
        let mut out: Table<usize> = Table::new();
        let mut i: usize = 0;
        assert(self.rows().take(0) =~= Seq::<(Seq<char>, usize)>::empty());
        while i < n
            invariant
                i <= n,
                n == self.rows().len(),
                out@ == table_of(self.rows().take(i as int)),
            decreases n - i,
        {
            let ghost next = self.rows().take(i + 1);
            assert(next.drop_last() =~= self.rows().take(i as int));
            let (k, v) = self.row(i);
            out.insert(k.clone(), *v);
            i += 1;
        }
        assert(self.rows().take(n as int) =~= self.rows());
        out
    }
}

} // verus!
