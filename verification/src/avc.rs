//! Dictionary-encoded columns: a sorted dictionary of distinct values and a
//! row-ordered vector of value ids. The id equal to the dictionary's length
//! is the null sentinel; larger ids never occur in a well-formed column.

use vstd::prelude::*;

verus! {

/// Index into a column's dictionary; the per-row stored representation.
pub type ValueId = u32;

/// A read-only dictionary: an ordered sequence of distinct values.
pub trait Dict {
    /// The dictionary's entries as a mathematical sequence.
    spec fn entries(&self) -> Seq<i64>;

    fn lookup(&self, i: ValueId) -> (r: i64)
        requires
            (i as int) < self.entries().len(),
        ensures
            r == self.entries()[i as int],
    ;

    fn len(&self) -> (r: usize)
        ensures
            r == self.entries().len(),
    ;
}

/// A dictionary backed by a vector, immutable once built.
pub struct FixedSizeDict {
    pub entries: Vec<i64>,
}

impl Dict for FixedSizeDict {
    open spec fn entries(&self) -> Seq<i64> {
        self.entries@
    }

    fn lookup(&self, i: ValueId) -> (r: i64) {
        self.entries[i as usize]
    }

    fn len(&self) -> (r: usize) {
        self.entries.len()
    }
}

/// The type-erased face of a column: row count, distinct count and the null
/// sentinel, without the decoded values.
pub trait DynAttributeValueContainer {
    /// The per-row value ids as a mathematical sequence.
    spec fn ids(&self) -> Seq<ValueId>;

    /// The dictionary entries as a mathematical sequence.
    spec fn dict_entries(&self) -> Seq<i64>;

    /// Well-formed: every stored id is at most the null sentinel, and the
    /// sentinel itself fits a `ValueId`.
    open spec fn wf(&self) -> bool {
        &&& forall|i: int|
            0 <= i < self.ids().len() ==> (#[trigger] self.ids()[i]) as int
                <= self.dict_entries().len()
        &&& self.dict_entries().len() <= u32::MAX
    }

    fn len(&self) -> (r: usize)
        ensures
            r == self.ids().len(),
    ;

    fn distinct_count(&self) -> (r: usize)
        ensures
            r == self.dict_entries().len(),
    ;

    fn null_value_id(&self) -> (r: ValueId)
        requires
            self.dict_entries().len() <= u32::MAX,
        ensures
            r == self.dict_entries().len(),
    ;
}

/// The decoded value of row `i`: none when the stored id is the null
/// sentinel, else the dictionary entry the id points at.
pub open spec fn decoded_row(ids: Seq<ValueId>, dict: Seq<i64>, i: int) -> Option<i64> {
    if ids[i] == dict.len() {
        None
    } else {
        Some(dict[ids[i] as int])
    }
}

/// A typed column: per-row decoding on top of the erased interface.
pub trait AttributeValueContainer: DynAttributeValueContainer {
    fn lookup(&self, i: usize) -> (r: Option<i64>)
        requires
            self.wf(),
            i < self.ids().len(),
        ensures
            r == decoded_row(self.ids(), self.dict_entries(), i as int),
            r is None <==> self.ids()[i as int] == self.dict_entries().len(),
    ;
}

/// One column: a row-ordered vector of value ids plus its dictionary.
pub struct MainAttributeValueContainer {
    pub data: Vec<ValueId>,
    pub dict: FixedSizeDict,
}

impl DynAttributeValueContainer for MainAttributeValueContainer {
    open spec fn ids(&self) -> Seq<ValueId> {
        self.data@
    }

    open spec fn dict_entries(&self) -> Seq<i64> {
        self.dict.entries@
    }

    fn len(&self) -> (r: usize) {
        self.data.len()
    }

    fn distinct_count(&self) -> (r: usize) {
        self.dict.len()
    }

    fn null_value_id(&self) -> (r: ValueId) {
        self.dict.len() as ValueId
    }
}

impl AttributeValueContainer for MainAttributeValueContainer {
    fn lookup(&self, i: usize) -> (r: Option<i64>) {
        let vid = self.data[i];
        let null_id = self.null_value_id();
        if vid == null_id {
            None
        } else {
            Some(self.dict.lookup(vid))
        }
    }
}

/// The whole column decoded, row by row.
pub open spec fn decoded_rows(ids: Seq<ValueId>, dict: Seq<i64>) -> Seq<Option<i64>> {
    Seq::new(ids.len(), |i: int| decoded_row(ids, dict, i))
}

/// Row-position/value pairs ordered ascending by value.
pub open spec fn pairs_sorted(s: Seq<(usize, i64)>) -> bool {
    forall|x: int, y: int| 0 <= x < y < s.len() ==> (#[trigger] s[x]).1 <= (#[trigger] s[y]).1
}

/// Stable-by-swap insertion sort of row/value pairs, ascending by value.
fn sort_pairs(pairs: &mut Vec<(usize, i64)>)
    ensures
        final(pairs)@.len() == old(pairs)@.len(),
        final(pairs)@.to_multiset() == old(pairs)@.to_multiset(),
        pairs_sorted(final(pairs)@),
{
    broadcast use vstd::seq_lib::group_to_multiset_ensures;
    broadcast use vstd::seq_lib::to_multiset_update;
    broadcast use vstd::multiset::group_multiset_axioms;
    broadcast use vstd::multiset::group_multiset_properties;

    let n = pairs.len();
    if n == 0 {
        return;
    }
    let mut i: usize = 1;
    while i < n
        invariant
            n == pairs@.len(),
            1 <= i <= n,
            pairs@.to_multiset() == old(pairs)@.to_multiset(),
            pairs_sorted(pairs@.take(i as int)),
        decreases n - i,
    {
        proof {
            assert forall|x: int, y: int| 0 <= x < y <= i && y != i implies (#[trigger] pairs@[x]).1
                <= (#[trigger] pairs@[y]).1 by {
                assert(pairs@.take(i as int)[x] == pairs@[x]);
                assert(pairs@.take(i as int)[y] == pairs@[y]);
            }
        }
        let mut j: usize = i;
        while j > 0 && pairs[j - 1].1 > pairs[j].1
            invariant
                n == pairs@.len(),
                0 <= j <= i < n,
                pairs@.to_multiset() == old(pairs)@.to_multiset(),
                forall|x: int, y: int|
                    0 <= x < y <= i && y != j ==> (#[trigger] pairs@[x]).1 <= (#[trigger] pairs@[y]).1,
            decreases j,
        {
            let a = pairs[j - 1];
            let b = pairs[j];
            let ghost before = pairs@;
            pairs.set(j - 1, b);
            pairs.set(j, a);
            proof {
                let after = pairs@;
                assert(after == before.update(j - 1, b).update(j as int, a));
                before.to_multiset_ensures();
                let s1 = before.update(j - 1, b);
                s1.to_multiset_ensures();
                vstd::seq_lib::to_multiset_update(before, j - 1, b);
                vstd::seq_lib::to_multiset_update(s1, j as int, a);
                assert(s1[j as int] == b);
                assert(before.to_multiset().count(a) >= 1) by {
                    assert(before[j - 1] == a);
                    assert(before.contains(a));
                }
                assert(s1.to_multiset().count(b) >= 1) by {
                    assert(s1.contains(b));
                }
                assert(s1.to_multiset() == before.to_multiset().insert(b).remove(a));
                assert(after.to_multiset() == s1.to_multiset().insert(a).remove(b));
                assert(after.to_multiset() =~= before.to_multiset());
            }
            j = j - 1;
        }
        proof {
            assert forall|x: int, y: int| 0 <= x < y <= i implies (#[trigger] pairs@[x]).1
                <= (#[trigger] pairs@[y]).1 by {
                if y == j {
                    assert(pairs@[j - 1].1 <= pairs@[j as int].1);
                    if x < j - 1 {
                        assert(pairs@[x].1 <= pairs@[j - 1].1);
                    }
                }
            }
            assert(pairs_sorted(pairs@.take(i + 1)));
        }
        i = i + 1;
    }
    proof {
        assert(pairs@.take(n as int) =~= pairs@);
    }
}

/// Some pair in `p` carries row `i` together with that row's value in `col`.
pub open spec fn covers_row(p: Seq<(usize, i64)>, col: Seq<i64>, i: int) -> bool {
    exists|m: int| 0 <= m < p.len() && #[trigger] p[m] == (i as usize, col[i])
}

/// A multiset-equal rearrangement of the row/value pairs of `col` still pairs
/// every row exactly once with its own value.
proof fn lemma_pairs_permutation(p0: Seq<(usize, i64)>, p: Seq<(usize, i64)>, col: Seq<i64>)
    requires
        col.len() <= usize::MAX,
        p0.len() == col.len(),
        forall|i: int| 0 <= i < p0.len() ==> #[trigger] p0[i] == (i as usize, col[i]),
        p.to_multiset() == p0.to_multiset(),
    ensures
        p.len() == col.len(),
        forall|m: int|
            0 <= m < p.len() ==> (#[trigger] p[m]).0 < col.len() && p[m].1 == col[p[m].0 as int],
        forall|m1: int, m2: int|
            0 <= m1 < m2 < p.len() ==> (#[trigger] p[m1]).0 != (#[trigger] p[m2]).0,
        forall|i: int| 0 <= i < col.len() ==> #[trigger] covers_row(p, col, i),
{
    broadcast use vstd::seq_lib::group_to_multiset_ensures;

    p0.to_multiset_ensures();
    p.to_multiset_ensures();
    assert(p.len() == col.len());
    assert(p0.no_duplicates()) by {
        assert forall|i: int, j: int| 0 <= i < p0.len() && 0 <= j < p0.len() && i != j implies p0[i]
            != p0[j] by {
            assert(p0[i].0 == i as usize);
            assert(p0[j].0 == j as usize);
        }
    }
    p0.lemma_multiset_has_no_duplicates();
    assert forall|m: int| 0 <= m < p.len() implies (#[trigger] p[m]).0 < col.len() && p[m].1
        == col[p[m].0 as int] by {
        assert(p.contains(p[m]));
        assert(p0.to_multiset().count(p[m]) > 0);
        assert(p0.contains(p[m]));
        let i = choose|i: int| 0 <= i < p0.len() && p0[i] == p[m];
        assert(p[m] == (i as usize, col[i]));
    }
    assert forall|m1: int, m2: int| 0 <= m1 < m2 < p.len() implies (#[trigger] p[m1]).0
        != (#[trigger] p[m2]).0 by {
        if p[m1].0 == p[m2].0 {
            assert(p[m1] == p[m2]) by {
                let a = p[m1].0 as int;
                assert(p[m1].1 == col[a]);
                assert(p[m2].1 == col[a]);
            }
            let x = p[m1];
            assert(p.remove(m2).to_multiset() =~= p.to_multiset().remove(x));
            assert(p.remove(m2)[m1] == x);
            assert(p.remove(m2).contains(x));
            p.remove(m2).to_multiset_ensures();
            assert(p.to_multiset().remove(x).count(x) > 0);
            assert(p.to_multiset().count(x) >= 2);
            assert(p0.to_multiset().count(x) >= 2);
            assert(p0.contains(x));
            assert(false);
        }
    }
    assert forall|i: int| 0 <= i < col.len() implies #[trigger] covers_row(p, col, i) by {
        assert(p0[i] == (i as usize, col[i]));
        assert(p0.contains((i as usize, col[i])));
        assert(p.to_multiset().count((i as usize, col[i])) > 0);
        assert(p.contains((i as usize, col[i])));
        let m = choose|m: int| 0 <= m < p.len() && p[m] == (i as usize, col[i]);
        assert(p[m] == (i as usize, col[i]));
    }
}

/// Some pair among the first `k` of `p` carries the value `v`.
pub open spec fn value_seen(p: Seq<(usize, i64)>, k: int, v: i64) -> bool {
    exists|m: int| 0 <= m < k && (#[trigger] p[m]).1 == v
}

/// Build one dictionary-encoded column from a raw value sequence: pair each
/// value with its row, sort the pairs by value, assign ascending dictionary
/// ids to the distinct values, and scatter the ids back into row order.
pub fn create_avc(column: &Vec<i64>) -> (r: MainAttributeValueContainer)
    requires
        column@.len() <= u32::MAX,
    ensures
        r.wf(),
        r.data@.len() == column@.len(),
        forall|i: int|
            0 <= i < column@.len() ==> decoded_row(r.data@, r.dict.entries@, i) == Some(
                column@[i],
            ),
        decoded_rows(r.data@, r.dict.entries@) == Seq::new(
            column@.len(),
            |i: int| Some(column@[i]),
        ),
        r.dict.entries@.len() == column@.to_set().len(),
        forall|x: int, y: int|
            0 <= x < y < r.dict.entries@.len() ==> r.dict.entries@[x] < r.dict.entries@[y],
{
    broadcast use vstd::set::group_set_axioms;

    let n = column.len();
    let mut pairs: Vec<(usize, i64)> = Vec::new();
    let mut i: usize = 0;
    while i < n
        invariant
            n == column@.len(),
            0 <= i <= n,
            pairs@.len() == i,
            forall|k: int| 0 <= k < i ==> #[trigger] pairs@[k] == (k as usize, column@[k]),
        decreases n - i,
    {
        pairs.push((i, column[i]));
        i = i + 1;
    }
    let ghost p0 = pairs@;
    sort_pairs(&mut pairs);
    proof {
        lemma_pairs_permutation(p0, pairs@, column@);
    }
    let ghost p = pairs@;

    let mut dv: Vec<ValueId> = Vec::new();
    let mut k: usize = 0;
    while k < n
        invariant
            0 <= k <= n,
            dv@.len() == k,
        decreases n - k,
    {
        dv.push(0);
        k = k + 1;
    }

    let mut dict: Vec<i64> = Vec::new();
    let mut k: usize = 0;
    while k < n
        invariant
            n == column@.len(),
            column@.len() <= u32::MAX,
            0 <= k <= n,
            pairs@ == p,
            p.len() == n,
            pairs_sorted(p),
            forall|m: int| 0 <= m < n ==> (#[trigger] p[m]).0 < n && p[m].1 == col_at(column@, p[m].0 as int),
            forall|m1: int, m2: int|
                0 <= m1 < m2 < n ==> (#[trigger] p[m1]).0 != (#[trigger] p[m2]).0,
            forall|i: int| 0 <= i < n ==> #[trigger] covers_row(p, column@, i),
            dv@.len() == n,
            dict@.len() <= k,
            k > 0 ==> dict@.len() >= 1,
            k > 0 ==> dict@.last() == p[k - 1].1,
            forall|x: int, y: int| 0 <= x < y < dict@.len() ==> dict@[x] < dict@[y],
            forall|x: int| 0 <= x < dict@.len() ==> value_seen(p, k as int, #[trigger] dict@[x]),
            forall|m: int| 0 <= m < k ==> dict@.contains((#[trigger] p[m]).1),
            forall|m: int|
                0 <= m < k ==> (#[trigger] dv@[p[m].0 as int]) < dict@.len() && dict@[dv@[p[m].0
                    as int] as int] == p[m].1,
        decreases n - k,
    {
        let (pos, val) = pairs[k];
        proof {
            assert(p[k as int].0 < n);
            assert(pos < n);
        }
        let ghost old_dict = dict@;
        let ghost old_dv = dv@;
        let dlen = dict.len();
        if dlen > 0 && dict[dlen - 1] == val {
            dv.set(pos, (dlen - 1) as u32);
        } else {
            proof {
                if dlen > 0 {
                    assert(dict@.last() == p[k - 1].1);
                    assert(p[k - 1].1 <= p[k as int].1);
                    assert(dict@.last() < val);
                }
            }
            dict.push(val);
            let new_len = dict.len();
            dv.set(pos, (new_len - 1) as u32);
            proof {
                assert forall|x: int, y: int| 0 <= x < y < dict@.len() implies dict@[x]
                    < dict@[y] by {
                    if y == dict@.len() - 1 {
                        assert(old_dict[x] < old_dict.last() || x == old_dict.len() - 1);
                    }
                }
            }
        }
        proof {
            let kk = k as int;
            assert(dict@[dict@.len() - 1] == val);
            assert forall|x: int| 0 <= x < dict@.len() implies value_seen(
                p,
                kk + 1,
                #[trigger] dict@[x],
            ) by {
                if x < old_dict.len() {
                    assert(value_seen(p, kk, old_dict[x]));
                    let m = choose|m: int| 0 <= m < kk && (#[trigger] p[m]).1 == old_dict[x];
                    assert(p[m].1 == dict@[x]);
                } else {
                    assert(p[kk].1 == dict@[x]);
                }
            }
            assert forall|m: int| 0 <= m < kk + 1 implies dict@.contains((#[trigger] p[m]).1) by {
                if m < kk {
                    assert(old_dict.contains(p[m].1));
                    let x = choose|x: int| 0 <= x < old_dict.len() && old_dict[x] == p[m].1;
                    assert(dict@[x] == p[m].1);
                } else {
                    assert(dict@[dict@.len() - 1] == p[m].1);
                }
            }
            assert forall|m: int| 0 <= m < kk + 1 implies (#[trigger] dv@[p[m].0 as int])
                < dict@.len() && dict@[dv@[p[m].0 as int] as int] == p[m].1 by {
                if m < kk {
                    assert(p[m].0 != p[kk].0);
                    assert(dv@[p[m].0 as int] == old_dv[p[m].0 as int]);
                    assert(old_dict[old_dv[p[m].0 as int] as int] == p[m].1);
                    assert(dict@[dv@[p[m].0 as int] as int] == p[m].1);
                } else {
                    assert(dv@[p[m].0 as int] == dict@.len() - 1);
                }
            }
        }
        k = k + 1;
    }

    let result = MainAttributeValueContainer { data: dv, dict: FixedSizeDict { entries: dict } };
    proof {
        let col = column@;
        let d = result.dict.entries@;
        let ids = result.data@;
        assert forall|i: int| 0 <= i < col.len() implies (#[trigger] ids[i]) < d.len() && d[ids[i] as int]
            == col[i] by {
            assert(covers_row(p, col, i));
            let m = choose|m: int| 0 <= m < p.len() && #[trigger] p[m] == (i as usize, col[i]);
            assert(p[m].0 as int == i);
            assert(ids[p[m].0 as int] < d.len() && d[ids[p[m].0 as int] as int] == p[m].1);
        }
        assert(result.wf());
        assert(d.no_duplicates()) by {
            assert forall|x: int, y: int|
                0 <= x < d.len() && 0 <= y < d.len() && x != y implies d[x] != d[y] by {
                if x < y {
                    assert(d[x] < d[y]);
                } else {
                    assert(d[y] < d[x]);
                }
            }
        }
        d.unique_seq_to_set();
        assert(d.to_set() =~= col.to_set()) by {
            assert forall|v: i64| d.to_set().contains(v) implies col.to_set().contains(v) by {
                assert(d.contains(v));
                let x = choose|x: int| 0 <= x < d.len() && d[x] == v;
                assert(value_seen(p, n as int, d[x]));
                let m = choose|m: int| 0 <= m < n && (#[trigger] p[m]).1 == d[x];
                assert(col[p[m].0 as int] == v);
                assert(col.contains(v));
            }
            assert forall|v: i64| col.to_set().contains(v) implies d.to_set().contains(v) by {
                assert(col.contains(v));
                let i = choose|i: int| 0 <= i < col.len() && col[i] == v;
                assert(covers_row(p, col, i));
                let m = choose|m: int| 0 <= m < p.len() && #[trigger] p[m] == (i as usize, col[i]);
                assert(d.contains(p[m].1));
            }
        }
        assert(d.len() == col.to_set().len());
        assert(decoded_rows(ids, d) =~= Seq::new(col.len(), |i: int| Some(col[i])));
    }
    result
}

/// The value of `col` at row `i`; a named form that quantifiers can key on.
pub open spec fn col_at(col: Seq<i64>, i: int) -> i64 {
    col[i]
}

} // verus!
