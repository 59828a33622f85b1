//! A table with at most one row per key, in the order in which the keys came.

use crate::wire::Wire;
use vstd::prelude::*;

verus! {

/// What a table can be keyed by.
pub trait Key: DeepView + Sized {
    /// Whether two keys are the same.
    fn same(&self, other: &Self) -> (r: bool)
        ensures
            r == (self.deep_view() == other.deep_view()),
    ;
}

impl Key for u16 {
    fn same(&self, other: &u16) -> (r: bool) {
        *self == *other
    }
}

impl Key for String {
    fn same(&self, other: &String) -> (r: bool) {
        *self == *other
    }
}

impl Key for [u8; 6] {
    fn same(&self, other: &[u8; 6]) -> (r: bool) {
        let mut i: usize = 0;
        while i < 6
            invariant
                i <= 6,
                forall|j: int| 0 <= j < i ==> self@[j] == other@[j],
            decreases 6 - i,
        {
            if self[i] != other[i] {
                assert(self.deep_view()[i as int] != other.deep_view()[i as int]);
                return false;
            }
            i += 1;
        }
        assert(self.deep_view() =~= other.deep_view());
        true
    }
}

/// Whether no key stands in two rows.
pub open spec fn distinct<A, B>(rows: Seq<(A, B)>) -> bool {
    forall|i: int, j: int|
        0 <= i < j < rows.len() ==> (#[trigger] rows[i]).0 != (#[trigger] rows[j]).0
}

/// Whether some row has the key `k`.
pub open spec fn holds<A, B>(rows: Seq<(A, B)>, k: A) -> bool {
    exists|i: int| 0 <= i < rows.len() && (#[trigger] rows[i]).0 == k
}

/// Where the row with the key `k` stands.
pub open spec fn place<A, B>(rows: Seq<(A, B)>, k: A) -> int {
    choose|i: int| 0 <= i < rows.len() && (#[trigger] rows[i]).0 == k
}

/// What the table holds for the key `k`.
pub open spec fn get<A, B>(rows: Seq<(A, B)>, k: A) -> Option<B> {
    if holds(rows, k) {
        Some(rows[place(rows, k)].1)
    } else {
        None
    }
}

/// The table after `v` was stored for `k`: in the row of `k` if there is one,
/// else in a new last row.
pub open spec fn put<A, B>(rows: Seq<(A, B)>, k: A, v: B) -> Seq<(A, B)> {
    if holds(rows, k) {
        rows.update(place(rows, k), (k, v))
    } else {
        rows.push((k, v))
    }
}

/// The table without the row of `k`.
pub open spec fn without<A, B>(rows: Seq<(A, B)>, k: A) -> Seq<(A, B)> {
    if holds(rows, k) {
        rows.remove(place(rows, k))
    } else {
        rows
    }
}

/// A row that has the key `k` is the row of `k`.
pub proof fn lemma_place<A, B>(rows: Seq<(A, B)>, i: int)
    requires
        distinct(rows),
        0 <= i < rows.len(),
    ensures
        holds(rows, rows[i].0),
        place(rows, rows[i].0) == i,
        get(rows, rows[i].0) == Some(rows[i].1),
{
    let p = place(rows, rows[i].0);
    assert(rows[p].0 == rows[i].0);
    if p < i {
        assert(rows[p].0 != rows[i].0);
    } else if i < p {
        assert(rows[i].0 != rows[p].0);
    }
}

/// Storing a value: keys stay unique, the value is found under its key, and
/// nothing changes under any other key.
pub proof fn put_then_get<A, B>(rows: Seq<(A, B)>, k: A, v: B, other: A)
    requires
        distinct(rows),
    ensures
        distinct(put(rows, k, v)),
        get(put(rows, k, v), k) == Some(v),
        other != k ==> get(put(rows, k, v), other) == get(rows, other),
{
    let after = put(rows, k, v);
    if holds(rows, k) {
        let p = place(rows, k);
        lemma_place(rows, p);
        assert forall|i: int, j: int| 0 <= i < j < after.len() implies (#[trigger] after[i]).0 != (
        #[trigger] after[j]).0 by {
            assert(rows[i].0 != rows[j].0);
        }
        lemma_place(after, p);
    } else {
        assert forall|i: int, j: int| 0 <= i < j < after.len() implies (#[trigger] after[i]).0 != (
        #[trigger] after[j]).0 by {
            if j == rows.len() {
                assert(rows[i].0 != k);
            }
        }
        lemma_place(after, rows.len() as int);
    }
    if other != k {
        if holds(rows, other) {
            let q = place(rows, other);
            assert(after[q] == rows[q]);
            lemma_place(rows, q);
            lemma_place(after, q);
        } else if holds(after, other) {
            let q = place(after, other);
            assert(after[q].0 == other);
            assert(rows[q].0 == other);
        }
    }
}

/// Storing a value removes no key.
pub proof fn put_keeps<A, B>(rows: Seq<(A, B)>, k: A, v: B, other: A)
    requires
        holds(rows, other),
    ensures
        holds(put(rows, k, v), other),
{
    let q = place(rows, other);
    assert(rows[q].0 == other);
    assert(put(rows, k, v)[q].0 == other);
}

/// Of two values that are stored for the same key, the second stays.
pub proof fn put_twice<A, B>(rows: Seq<(A, B)>, k: A, v: B, w: B)
    requires
        distinct(rows),
    ensures
        put(put(rows, k, v), k, w) == put(rows, k, w),
{
    put_then_get(rows, k, v, k);
    let once = put(rows, k, v);
    let p = if holds(rows, k) {
        place(rows, k)
    } else {
        rows.len() as int
    };
    lemma_place(once, p);
    assert(put(once, k, w) =~= put(rows, k, w));
}

/// Removing a key: keys stay unique, nothing is found under it, and nothing
/// changes under any other key.
pub proof fn without_then_get<A, B>(rows: Seq<(A, B)>, k: A, other: A)
    requires
        distinct(rows),
    ensures
        distinct(without(rows, k)),
        get(without(rows, k), k) is None,
        other != k ==> get(without(rows, k), other) == get(rows, other),
{
    let after = without(rows, k);
    if holds(rows, k) {
        let p = place(rows, k);
        lemma_place(rows, p);
        assert forall|i: int, j: int| 0 <= i < j < after.len() implies (#[trigger] after[i]).0 != (
        #[trigger] after[j]).0 by {
            let a = if i < p {
                i
            } else {
                i + 1
            };
            let b = if j < p {
                j
            } else {
                j + 1
            };
            assert(rows[a].0 != rows[b].0);
        }
        if holds(after, k) {
            let q = place(after, k);
            assert(after[q].0 == k);
            let a = if q < p {
                q
            } else {
                q + 1
            };
            assert(rows[a].0 == k);
            lemma_place(rows, a);
        }
        if other != k {
            if holds(rows, other) {
                let q = place(rows, other);
                let b = if q < p {
                    q
                } else {
                    q - 1
                };
                assert(after[b] == rows[q]);
                lemma_place(rows, q);
                lemma_place(after, b);
            } else if holds(after, other) {
                let q = place(after, other);
                assert(after[q].0 == other);
                let a = if q < p {
                    q
                } else {
                    q + 1
                };
                assert(rows[a].0 == other);
            }
        }
    }
}

/// A table from keys to values.
#[derive(Debug)]
pub struct Table<K: Key, V: DeepView> {
    rows: Vec<(K, V)>,
}

impl<K: Key, V: DeepView> DeepView for Table<K, V> {
    type V = Seq<(K::V, V::V)>;

    closed spec fn deep_view(&self) -> Seq<(K::V, V::V)> {
        self.rows.deep_view()
    }
}

impl<K: Key, V: DeepView> Table<K, V> {
    #[verifier::type_invariant]
    spec fn unique(self) -> bool {
        distinct(self.rows.deep_view())
    }

    /// A table without rows.
    pub fn new() -> (r: Table<K, V>)
        ensures
            r.deep_view() == Seq::<(K::V, V::V)>::empty(),
    {
        let rows: Vec<(K, V)> = Vec::new();
        assert(rows.deep_view() =~= Seq::<(K::V, V::V)>::empty());
        Table { rows }
    }

    /// A table of the given rows.
    pub(crate) fn from_rows(rows: Vec<(K, V)>) -> (r: Table<K, V>)
        requires
            distinct(rows.deep_view()),
        ensures
            r.deep_view() == rows.deep_view(),
    {
        Table { rows }
    }

    /// The rows.
    pub fn rows(&self) -> (r: &Vec<(K, V)>)
        ensures
            r.deep_view() == self.deep_view(),
            distinct(self.deep_view()),
    {
        proof {
            use_type_invariant(self);
        }
        &self.rows
    }

    /// Where the row with the key `k` stands.
    fn find(&self, k: &K) -> (r: Option<usize>)
        ensures
            match r {
                Some(i) => i < self.rows@.len() && holds(self.deep_view(), k.deep_view()) && place(
                    self.deep_view(),
                    k.deep_view(),
                ) == i,
                None => !holds(self.deep_view(), k.deep_view()),
            },
    {
        proof {
            use_type_invariant(self);
        }
        let ghost all = self.deep_view();
        let mut i: usize = 0;
        while i < self.rows.len()
            invariant
                i <= self.rows@.len(),
                all == self.rows.deep_view(),
                all == self.deep_view(),
                distinct(all),
                forall|j: int| 0 <= j < i ==> (#[trigger] all[j]).0 != k.deep_view(),
            decreases self.rows@.len() - i,
        {
            assert(all[i as int] == self.rows@[i as int].deep_view());
            if self.rows[i].0.same(k) {
                proof {
                    lemma_place(all, i as int);
                }
                return Some(i);
            }
            i += 1;
        }
        None
    }

    /// What is stored for `k`.
    pub fn get(&self, k: &K) -> (r: Option<&V>)
        ensures
            match r {
                Some(v) => get(self.deep_view(), k.deep_view()) == Some(v.deep_view()),
                None => get(self.deep_view(), k.deep_view()) is None,
            },
    {
        match self.find(k) {
            Some(i) => {
                let v = &self.rows[i].1;
                assert(self.rows.deep_view()[i as int] == self.rows@[i as int].deep_view());
                Some(v)
            },
            None => None,
        }
    }

    /// Stores `v` for `k`.
    pub fn insert(&mut self, k: K, v: V)
        ensures
            final(self).deep_view() == put(old(self).deep_view(), k.deep_view(), v.deep_view()),
    {
        proof {
            use_type_invariant(&*self);
        }
        let ghost before = self.deep_view();
        let ghost (gk, gv) = (k.deep_view(), v.deep_view());
        let spot = self.find(&k);
        let mut rows: Vec<(K, V)> = Vec::new();
        assert(rows.deep_view() =~= Seq::<(K::V, V::V)>::empty());
        std::mem::swap(&mut rows, &mut self.rows);
        match spot {
            Some(i) => {
                rows.set(i, (k, v));
            },
            None => {
                rows.push((k, v));
            },
        }
        proof {
            assert(rows.deep_view() =~= put(before, gk, gv));
            put_then_get(before, gk, gv, gk);
        }
        self.rows = rows;
    }

    /// Removes what is stored for `k`.
    pub fn remove(&mut self, k: &K)
        ensures
            final(self).deep_view() == without(old(self).deep_view(), k.deep_view()),
    {
        proof {
            use_type_invariant(&*self);
        }
        let ghost before = self.deep_view();
        let spot = self.find(k);
        match spot {
            Some(i) => {
                let mut rows: Vec<(K, V)> = Vec::new();
                assert(rows.deep_view() =~= Seq::<(K::V, V::V)>::empty());
                std::mem::swap(&mut rows, &mut self.rows);
                let _gone = rows.remove(i);
                proof {
                    assert(rows.deep_view() =~= without(before, k.deep_view()));
                    without_then_get(before, k.deep_view(), k.deep_view());
                }
                self.rows = rows;
            },
            None => {},
        }
    }
}

/// The table `base` after each of `rows` was stored in turn.
pub open spec fn put_all<A, B>(base: Seq<(A, B)>, rows: Seq<(A, B)>) -> Seq<(A, B)>
    decreases rows.len(),
{
    if rows.len() == 0 {
        base
    } else {
        put_all(put(base, rows[0].0, rows[0].1), rows.drop_first())
    }
}

/// Rows with different keys are stored one behind the other.
pub proof fn lemma_put_all_distinct<A, B>(base: Seq<(A, B)>, rows: Seq<(A, B)>)
    requires
        distinct(base + rows),
    ensures
        put_all(base, rows) == base + rows,
    decreases rows.len(),
{
    if rows.len() == 0 {
        assert(base + rows =~= base);
    } else {
        let all = base + rows;
        if holds(base, rows[0].0) {
            let i = place(base, rows[0].0);
            assert(all[i].0 != all[base.len() as int].0);
        }
        let next = base.push(rows[0]);
        assert(put(base, rows[0].0, rows[0].1) == next);
        assert(next + rows.drop_first() =~= all);
        lemma_put_all_distinct(next, rows.drop_first());
    }
}

impl Clone for Table<String, String> {
    fn clone(&self) -> (r: Table<String, String>)
        ensures
            r.deep_view() == self.deep_view(),
    {
        let from = self.rows();
        let ghost all = from.deep_view();
        let mut rows: Vec<(String, String)> = Vec::new();
        let mut i: usize = 0;
        while i < from.len()
            invariant
                i <= from@.len(),
                all == from.deep_view(),
                rows.deep_view() == all.take(i as int),
            decreases from@.len() - i,
        {
            let ghost before = rows.deep_view();
            let row = (from[i].0.clone(), from[i].1.clone());
            let ghost r = row.deep_view();
            assert(all[i as int] == from@[i as int].deep_view());
            rows.push(row);
            assert(rows.deep_view() =~= before.push(r));
            assert(rows.deep_view() =~= all.take(i + 1));
            i += 1;
        }
        assert(rows.deep_view() =~= all);
        Table::from_rows(rows)
    }
}

/// A table is a sequence of rows on the wire. Where a key comes twice in what
/// is read, the later value holds.
impl<K: Key + Wire, V: Wire> Wire for Table<K, V> {
    open spec fn wire(v: Seq<(K::V, V::V)>) -> Seq<u8> {
        <Vec<(K, V)> as Wire>::wire(v)
    }

    open spec fn parse(b: Seq<u8>) -> Result<(Seq<(K::V, V::V)>, Seq<u8>), Seq<char>> {
        match <Vec<(K, V)> as Wire>::parse(b) {
            Err(text) => Err(text),
            Ok((rows, rest)) => Ok((put_all(seq![], rows), rest)),
        }
    }

    open spec fn fits(v: Seq<(K::V, V::V)>) -> bool {
        distinct(v) && <Vec<(K, V)> as Wire>::fits(v)
    }

    open spec fn encodable(v: Seq<(K::V, V::V)>) -> bool {
        <Vec<(K, V)> as Wire>::encodable(v)
    }

    proof fn round_trip(v: Seq<(K::V, V::V)>, rest: Seq<u8>) {
        <Vec<(K, V)> as Wire>::round_trip(v, rest);
        assert(Seq::<(K::V, V::V)>::empty() + v =~= v);
        lemma_put_all_distinct(seq![], v);
    }

    fn is_encodable(&self) -> (r: bool) {
        self.rows.is_encodable()
    }

    fn encode(&self, out: &mut Vec<u8>) {
        self.rows.encode(out);
    }

    fn decode(b: &[u8]) -> (r: Result<(Table<K, V>, &[u8]), String>) {
        match <Vec<(K, V)> as Wire>::decode(b) {
            Err(text) => Err(text),
            Ok((rows, rest)) => {
                let ghost all = rows.deep_view();
                let mut left = rows;
                let mut t: Table<K, V> = Table::new();
                while left.len() > 0
                    invariant
                        put_all(t.deep_view(), left.deep_view()) == put_all(seq![], all),
                    decreases left@.len(),
                {
                    let ghost now = left.deep_view();
                    let (k, v) = left.remove(0);
                    assert(left.deep_view() =~= now.drop_first());
                    t.insert(k, v);
                }
                assert(left.deep_view() =~= seq![]);
                Ok((t, rest))
            },
        }
    }
}

/// Of the rows that are stored in turn, the last one with a key holds.
pub proof fn later_row_holds<A, B>(base: Seq<(A, B)>, rows: Seq<(A, B)>, k: A, v: B, other: A)
    requires
        distinct(base),
    ensures
        distinct(put_all(base, rows.push((k, v)))),
        get(put_all(base, rows.push((k, v))), k) == Some(v),
        other != k ==> get(put_all(base, rows.push((k, v))), other) == get(
            put_all(base, rows),
            other,
        ),
    decreases rows.len(),
{
    let all = rows.push((k, v));
    if rows.len() == 0 {
        put_then_get(base, k, v, k);
        put_then_get(base, k, v, other);
        assert(all.drop_first() =~= seq![]);
        assert(put_all(put(base, k, v), seq![]) == put(base, k, v));
    } else {
        let next = put(base, rows[0].0, rows[0].1);
        put_then_get(base, rows[0].0, rows[0].1, k);
        assert(all[0] == rows[0]);
        assert(all.drop_first() =~= rows.drop_first().push((k, v)));
        later_row_holds(next, rows.drop_first(), k, v, other);
    }
}

} // verus!
