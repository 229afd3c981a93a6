use vstd::prelude::*;
use vstd::multiset::Multiset;

use crate::column::{cell_eq, cells_view, dup_cell, Cell, CellValue};
use crate::error::PipeError;
use crate::table::{table_view, view_col, Table};

verus! {

/// Distinct values of `s` in order of first appearance.
pub open spec fn first_seen_values(s: Seq<CellValue>) -> Seq<CellValue>
    decreases s.len(),
{
    if s.len() == 0 {
        Seq::empty()
    } else {
        let p = first_seen_values(s.drop_last());
        if p.contains(s.last()) {
            p
        } else {
            p.push(s.last())
        }
    }
}

/// How many entries of `s` hold the value `v`.
pub open spec fn count_value(s: Seq<CellValue>, v: CellValue) -> int
    decreases s.len(),
{
    if s.len() == 0 {
        0
    } else {
        count_value(s.drop_last(), v) + if s.last() == v {
            1int
        } else {
            0int
        }
    }
}

pub proof fn lemma_first_seen_contains(s: Seq<CellValue>, v: CellValue)
    ensures
        first_seen_values(s).contains(v) <==> s.contains(v),
    decreases s.len(),
{
    if s.len() > 0 {
        lemma_first_seen_contains(s.drop_last(), v);
        let p = first_seen_values(s.drop_last());
        let fs = first_seen_values(s);
        if s.contains(v) {
            let k = choose|k: int| 0 <= k < s.len() && s[k] == v;
            if k < s.len() - 1 {
                assert(s.drop_last()[k] == v);
                assert(s.drop_last().contains(v));
                let j = choose|j: int| 0 <= j < p.len() && p[j] == v;
                if !p.contains(s.last()) {
                    assert(fs[j] == v);
                }
                assert(fs.contains(v));
            } else {
                if p.contains(s.last()) {
                    assert(fs.contains(v));
                } else {
                    assert(fs[p.len() as int] == v);
                    assert(fs.contains(v));
                }
            }
        }
        if fs.contains(v) {
            let j = choose|j: int| 0 <= j < fs.len() && fs[j] == v;
            if p.contains(s.last()) {
                let k = choose|k: int| 0 <= k < s.drop_last().len() && s.drop_last()[k] == v;
                assert(s[k] == v);
            } else {
                if j < p.len() {
                    assert(p[j] == v);
                    let k = choose|k: int| 0 <= k < s.drop_last().len() && s.drop_last()[k] == v;
                    assert(s[k] == v);
                } else {
                    assert(v == s.last());
                    assert(s[s.len() - 1] == v);
                }
            }
            assert(s.contains(v));
        }
    }
}

pub proof fn lemma_count_value_zero(s: Seq<CellValue>, v: CellValue)
    ensures
        (count_value(s, v) == 0) <==> !s.contains(v),
        count_value(s, v) >= 0,
    decreases s.len(),
{
    if s.len() > 0 {
        lemma_count_value_zero(s.drop_last(), v);
        if s.contains(v) {
            let k = choose|k: int| 0 <= k < s.len() && s[k] == v;
            if k < s.len() - 1 {
                assert(s.drop_last()[k] == v);
            }
        }
        if s.drop_last().contains(v) {
            let k = choose|k: int| 0 <= k < s.drop_last().len() && s.drop_last()[k] == v;
            assert(s[k] == v);
        }
    }
}

/// Sum of a sequence of counts.
pub open spec fn sum_counts(counts: Seq<int>) -> int
    decreases counts.len(),
{
    if counts.len() == 0 {
        0
    } else {
        sum_counts(counts.drop_last()) + counts.last()
    }
}

proof fn lemma_sum_counts_update(s: Seq<int>, j: int)
    requires
        0 <= j < s.len(),
    ensures
        sum_counts(s.update(j, s[j] + 1)) == sum_counts(s) + 1,
    decreases s.len(),
{
    let u = s.update(j, s[j] + 1);
    if j == s.len() - 1 {
        assert(u.drop_last() =~= s.drop_last());
        assert(u.last() == s.last() + 1);
    } else {
        lemma_sum_counts_update(s.drop_last(), j);
        assert(u.drop_last() =~= s.drop_last().update(j, s[j] + 1));
        assert(u.last() == s.last());
    }
}

/// The mathematical values of a sequence of counts.
pub open spec fn counts_view(s: Seq<usize>) -> Seq<int> {
    s.map_values(|x: usize| x as int)
}

/// The category values of a group count, in order.
pub open spec fn group_keys(ps: Seq<(CellValue, int)>) -> Seq<CellValue> {
    ps.map_values(|p: (CellValue, int)| p.0)
}

/// The counts of a group count, in order.
pub open spec fn group_counts(ps: Seq<(CellValue, int)>) -> Seq<int> {
    ps.map_values(|p: (CellValue, int)| p.1)
}

/// The result of a group-by-count aggregation: ordered (category value,
/// count) pairs, one per distinct value of the grouping column. Rows whose
/// grouping cell is null form a group of their own, under the null value.
#[derive(Debug)]
pub struct GroupCount {
    pub keys: Vec<Cell>,
    pub counts: Vec<usize>,
}

/// The pairs that a key vector and a count vector stand for.
pub open spec fn pair_view(keys: Seq<Cell>, counts: Seq<usize>) -> Seq<(CellValue, int)> {
    Seq::new(keys.len(), |i: int| (keys[i]@, counts[i] as int))
}

impl View for GroupCount {
    type V = Seq<(CellValue, int)>;

    open spec fn view(&self) -> Seq<(CellValue, int)> {
        pair_view(self.keys@, self.counts@)
    }
}

impl GroupCount {
    /// One count per key, and no category value appears twice.
    pub open spec fn well_formed(self) -> bool {
        &&& self.keys@.len() == self.counts@.len()
        &&& forall|i: int, j: int|
            0 <= i < j < self.keys@.len() ==> self.keys@[i]@ != self.keys@[j]@
    }

    pub fn len(&self) -> (r: usize)
        requires
            self.well_formed(),
        ensures
            r == self@.len(),
    {
        self.keys.len()
    }

    /// The category value of the group at `i`.
    pub fn key_at(&self, i: usize) -> (r: &Cell)
        requires
            self.well_formed(),
            i < self@.len(),
        ensures
            r@ == self@[i as int].0,
    {
        &self.keys[i]
    }

    /// The count of the group at `i`.
    pub fn count_at(&self, i: usize) -> (r: usize)
        requires
            self.well_formed(),
            i < self@.len(),
        ensures
            r as int == self@[i as int].1,
    {
        self.counts[i]
    }
}

/// The position of a cell among the keys gathered so far.
fn find_key(keys: &Vec<Cell>, c: &Cell) -> (r: Option<usize>)
    ensures
        match r {
            Some(j) => j < keys@.len() && keys@[j as int]@ == c@,
            None => forall|k: int| 0 <= k < keys@.len() ==> (#[trigger] keys@[k])@ != c@,
        },
{
    let mut j: usize = 0;
    while j < keys.len()
        invariant
            j <= keys@.len(),
            forall|k: int| 0 <= k < j ==> (#[trigger] keys@[k])@ != c@,
        decreases keys@.len() - j,
    {
        if cell_eq(&keys[j], c) {
            return Some(j);
        }
        j = j + 1;
    }
    None
}

/// Partitions the rows by the distinct values of the named column and counts
/// the rows of each partition. Pairs come in first-seen order of the value;
/// null cells form their own group; the counts add up to the row count.
pub fn group_count(t: &Table, by: &[u8]) -> (r: Result<GroupCount, PipeError>)
    requires
        t.well_formed(),
    ensures
        match r {
            Ok(g) => {
                let col = view_col(table_view(*t), by@).cells;
                &&& t.has_column(by@)
                &&& g.well_formed()
                &&& group_keys(g@) == first_seen_values(col)
                &&& forall|k: int| 0 <= k < g@.len() ==> g@[k].1 == count_value(col, g@[k].0)
                &&& sum_counts(group_counts(g@)) == t.spec_row_count()
            },
            Err(e) => e == PipeError::ColumnNotFound && !t.has_column(by@),
        },
{
    let idx = match t.column_index(by) {
        Some(i) => i,
        None => {
            return Err(PipeError::ColumnNotFound);
        },
    };
    proof {
        let tv = table_view(*t);
        assert(tv[idx as int] == t.cols@[idx as int]@);
        let k = crate::table::view_col_index(tv, by@);
        assert(0 <= k < tv.len() && tv[k].name == by@);
        assert(view_col(tv, by@) == tv[idx as int]);
    }
    let col = &t.cols[idx];
    let ghost cv: Seq<CellValue> = cells_view(col.cells@);
    let mut keys: Vec<Cell> = Vec::new();
    let mut counts: Vec<usize> = Vec::new();
    let mut i: usize = 0;
    while i < col.cells.len()
        invariant
            i <= cv.len(),
            cv == cells_view(col.cells@),
            col.cells@.len() == cv.len(),
            keys@.len() == counts@.len(),
            cells_view(keys@) == first_seen_values(cv.take(i as int)),
            forall|j: int, k: int| 0 <= j < k < keys@.len() ==> keys@[j]@ != keys@[k]@,
            forall|j: int|
                0 <= j < counts@.len() ==> #[trigger] counts@[j] as int == count_value(
                    cv.take(i as int),
                    keys@[j]@,
                ),
            forall|j: int| 0 <= j < counts@.len() ==> #[trigger] counts@[j] <= i,
            sum_counts(counts_view(counts@)) == i,
        decreases cv.len() - i,
    {
        let c = &col.cells[i];
        proof {
            assert(cv[i as int] == c@);
            assert(cv.take(i + 1).drop_last() =~= cv.take(i as int));
            assert(cv.take(i + 1).last() == c@);
        }
        match find_key(&keys, c) {
            Some(j) => {
                proof {
                    // this value was seen before: the keys stay, its count grows
                    assert(cells_view(keys@)[j as int] == c@);
                    assert(first_seen_values(cv.take(i as int)).contains(c@));
                    assert(first_seen_values(cv.take(i + 1)) == first_seen_values(
                        cv.take(i as int),
                    ));
                    lemma_sum_counts_update(counts_view(counts@), j as int);
                }
                let ghost counts_prev = counts@;
                let n = counts[j];
                counts.set(j, n + 1);
                proof {
                    assert(counts_view(counts@) =~= counts_view(counts_prev).update(
                        j as int,
                        counts_view(counts_prev)[j as int] + 1,
                    ));
                }
            },
            None => {
                proof {
                    // the value is new: it occurs nowhere in the prefix,
                    // so it joins the keys with a count of one
                    let fs = first_seen_values(cv.take(i as int));
                    assert forall|k: int| 0 <= k < fs.len() implies fs[k] != c@ by {
                        assert(cells_view(keys@)[k] == keys@[k]@);
                    }
                    assert(!fs.contains(c@));
                    lemma_first_seen_contains(cv.take(i as int), c@);
                    lemma_count_value_zero(cv.take(i as int), c@);
                }
                let ghost keys_prev = keys@;
                let ghost counts_prev = counts@;
                keys.push(dup_cell(c));
                counts.push(1);
                proof {
                    assert(cells_view(keys@) =~= cells_view(keys_prev).push(c@));
                    assert(cells_view(keys@) =~= first_seen_values(cv.take(i + 1)));
                    assert(counts_view(counts@).drop_last() =~= counts_view(counts_prev));
                    assert(counts_view(counts@).last() == 1);
                }
            },
        }
        i = i + 1;
    }
    let g = GroupCount { keys, counts };
    proof {
        assert(cv.take(cv.len() as int) =~= cv);
        assert(group_keys(g@) =~= cells_view(g.keys@));
        assert(group_counts(g@) =~= counts_view(g.counts@));
        assert forall|k: int| 0 <= k < g@.len() implies g@[k].1 == count_value(cv, g@[k].0) by {
            assert(g@[k].0 == g.keys@[k]@);
        }
    }
    Ok(g)
}

/// Whether a count must come strictly earlier than another under the
/// chosen direction.
pub open spec fn count_beats(a: int, b: int, descending: bool) -> bool {
    if descending {
        a > b
    } else {
        a < b
    }
}

/// Insertion of a pair into a run: it passes every pair it does not
/// strictly beat, so it lands after every pair of equal count.
pub open spec fn insert_by_count(
    p: (CellValue, int),
    s: Seq<(CellValue, int)>,
    descending: bool,
) -> Seq<(CellValue, int)>
    decreases s.len(),
{
    if s.len() == 0 {
        seq![p]
    } else if count_beats(p.1, s[0].1, descending) {
        seq![p] + s
    } else {
        seq![s[0]] + insert_by_count(p, s.drop_first(), descending)
    }
}

/// The stable sort of `ps` by count: pairs are inserted left to right, each
/// behind every earlier pair of equal count.
pub open spec fn sort_by_count_spec(
    ps: Seq<(CellValue, int)>,
    descending: bool,
) -> Seq<(CellValue, int)>
    decreases ps.len(),
{
    if ps.len() == 0 {
        Seq::empty()
    } else {
        insert_by_count(ps.last(), sort_by_count_spec(ps.drop_last(), descending), descending)
    }
}

/// No later pair beats an earlier one: descending order of counts when
/// `descending`, ascending otherwise.
pub open spec fn sorted_by_count(ps: Seq<(CellValue, int)>, descending: bool) -> bool {
    forall|i: int, j: int| 0 <= i < j < ps.len() ==> !count_beats(ps[j].1, ps[i].1, descending)
}

/// The pairs holding a given count.
pub open spec fn with_count(c: int) -> spec_fn((CellValue, int)) -> bool {
    |p: (CellValue, int)| p.1 == c
}

proof fn lemma_filter_singleton(p: (CellValue, int), pred: spec_fn((CellValue, int)) -> bool)
    ensures
        seq![p].filter(pred) == if pred(p) {
            seq![p]
        } else {
            Seq::<(CellValue, int)>::empty()
        },
{
    reveal_with_fuel(Seq::<_>::filter, 2);
    assert(seq![p].drop_last() =~= Seq::<(CellValue, int)>::empty());
    if pred(p) {
        assert(seq![p].filter(pred) =~= seq![p]);
    }
}

proof fn lemma_filter_none(s: Seq<(CellValue, int)>, pred: spec_fn((CellValue, int)) -> bool)
    requires
        forall|k: int| 0 <= k < s.len() ==> !pred(s[k]),
    ensures
        s.filter(pred) == Seq::<(CellValue, int)>::empty(),
    decreases s.len(),
{
    reveal_with_fuel(Seq::<_>::filter, 2);
    if s.len() > 0 {
        lemma_filter_none(s.drop_last(), pred);
        assert(s.filter(pred) == s.drop_last().filter(pred));
    }
}

proof fn lemma_insert_by_count_ensures(
    p: (CellValue, int),
    s: Seq<(CellValue, int)>,
    descending: bool,
)
    requires
        sorted_by_count(s, descending),
    ensures
        insert_by_count(p, s, descending).len() == s.len() + 1,
        sorted_by_count(insert_by_count(p, s, descending), descending),
        insert_by_count(p, s, descending).to_multiset() == s.to_multiset().insert(p),
        forall|k: int|
            0 <= k < s.len() + 1 ==> (#[trigger] insert_by_count(p, s, descending)[k] == p
                || s.contains(insert_by_count(p, s, descending)[k])),
    decreases s.len(),
{
    broadcast use vstd::seq_lib::group_to_multiset_ensures;

    let r = insert_by_count(p, s, descending);
    if s.len() == 0 {
        assert(r =~= Seq::<(CellValue, int)>::empty().push(p));
        assert(r.to_multiset() =~= s.to_multiset().insert(p));
    } else if count_beats(p.1, s[0].1, descending) {
        assert(r == seq![p] + s);
        vstd::seq_lib::lemma_multiset_commutative(seq![p], s);
        assert(seq![p].to_multiset() =~= Multiset::<(CellValue, int)>::empty().insert(p)) by {
            assert(seq![p] =~= Seq::<(CellValue, int)>::empty().push(p));
        }
        assert(r.to_multiset() =~= s.to_multiset().insert(p));
        assert forall|i: int, j: int| 0 <= i < j < r.len() implies !count_beats(
            r[j].1,
            r[i].1,
            descending,
        ) by {
            if i > 0 {
                assert(r[i] == s[i - 1] && r[j] == s[j - 1]);
            } else {
                assert(r[j] == s[j - 1]);
                if j > 1 {
                    assert(!count_beats(s[j - 1].1, s[0].1, descending));
                }
            }
        }
        assert forall|k: int| 0 <= k < s.len() + 1 implies (r[k] == p || s.contains(r[k])) by {
            if k > 0 {
                assert(r[k] == s[k - 1]);
            }
        }
    } else {
        let tail = s.drop_first();
        assert(sorted_by_count(tail, descending)) by {
            assert(forall|i: int, j: int|
                0 <= i < j < tail.len() ==> tail[i] == s[i + 1] && tail[j] == s[j + 1]);
        }
        lemma_insert_by_count_ensures(p, tail, descending);
        let q = insert_by_count(p, tail, descending);
        assert(r == seq![s[0]] + q);
        // multiset: r = [s[0]] + q, q's multiset is tail's plus p
        vstd::seq_lib::lemma_multiset_commutative(seq![s[0]], q);
        vstd::seq_lib::lemma_multiset_commutative(seq![s[0]], tail);
        assert(s =~= seq![s[0]] + tail);
        assert(r.to_multiset() =~= s.to_multiset().insert(p));
        // order: s[0] is not beaten by p nor by anything of tail
        assert forall|i: int, j: int| 0 <= i < j < r.len() implies !count_beats(
            r[j].1,
            r[i].1,
            descending,
        ) by {
            if i == 0 {
                assert(r[0] == s[0]);
                assert(r[j] == q[j - 1]);
                if q[j - 1] != p {
                    let k = choose|k: int| 0 <= k < tail.len() && tail[k] == q[j - 1];
                    assert(s[k + 1] == q[j - 1]);
                    assert(!count_beats(s[k + 1].1, s[0].1, descending));
                }
            } else {
                assert(r[i] == q[i - 1] && r[j] == q[j - 1]);
            }
        }
        assert forall|k: int| 0 <= k < s.len() + 1 implies (r[k] == p || s.contains(r[k])) by {
            if k == 0 {
                assert(s.contains(s[0]));
            } else {
                assert(r[k] == q[k - 1]);
                if q[k - 1] != p {
                    let m = choose|m: int| 0 <= m < tail.len() && tail[m] == q[k - 1];
                    assert(s[m + 1] == q[k - 1]);
                }
            }
        }
    }
}

proof fn lemma_insert_by_count_filter(
    p: (CellValue, int),
    s: Seq<(CellValue, int)>,
    descending: bool,
    c: int,
)
    requires
        sorted_by_count(s, descending),
    ensures
        insert_by_count(p, s, descending).filter(with_count(c)) == if p.1 == c {
            s.filter(with_count(c)).push(p)
        } else {
            s.filter(with_count(c))
        },
    decreases s.len(),
{
    reveal_with_fuel(Seq::<_>::filter, 2);
    let pred = with_count(c);
    let r = insert_by_count(p, s, descending);
    lemma_filter_singleton(p, pred);
    if s.len() == 0 {
        assert(s.filter(pred) == Seq::<(CellValue, int)>::empty());
        if p.1 == c {
            assert(seq![p] =~= Seq::<(CellValue, int)>::empty().push(p));
        }
    } else if count_beats(p.1, s[0].1, descending) {
        Seq::filter_distributes_over_add(seq![p], s, pred);
        if p.1 == c {
            // everything in s is strictly beaten by p, so nothing holds count c
            assert forall|k: int| 0 <= k < s.len() implies !pred(s[k]) by {
                if k > 0 {
                    assert(!count_beats(s[k].1, s[0].1, descending));
                }
            }
            lemma_filter_none(s, pred);
            assert(seq![p] + s.filter(pred) =~= s.filter(pred).push(p));
        } else {
            assert(seq![p].filter(pred) + s.filter(pred) =~= s.filter(pred));
        }
    } else {
        let tail = s.drop_first();
        assert(sorted_by_count(tail, descending)) by {
            assert(forall|i: int, j: int|
                0 <= i < j < tail.len() ==> tail[i] == s[i + 1] && tail[j] == s[j + 1]);
        }
        lemma_insert_by_count_filter(p, tail, descending, c);
        let q = insert_by_count(p, tail, descending);
        assert(r == seq![s[0]] + q);
        Seq::filter_distributes_over_add(seq![s[0]], q, pred);
        assert(s =~= seq![s[0]] + tail);
        Seq::filter_distributes_over_add(seq![s[0]], tail, pred);
        lemma_filter_singleton(s[0], pred);
        if p.1 == c {
            assert(seq![s[0]].filter(pred) + tail.filter(pred).push(p) =~= (seq![s[0]].filter(pred)
                + tail.filter(pred)).push(p));
        }
    }
}

/// The sort orders the pairs by count, descending or ascending per the flag,
/// and keeps exactly the pairs it was given.
pub proof fn lemma_sort_by_count_sorted(ps: Seq<(CellValue, int)>, descending: bool)
    ensures
        sort_by_count_spec(ps, descending).len() == ps.len(),
        sorted_by_count(sort_by_count_spec(ps, descending), descending),
        sort_by_count_spec(ps, descending).to_multiset() == ps.to_multiset(),
    decreases ps.len(),
{
    broadcast use vstd::seq_lib::group_to_multiset_ensures;

    if ps.len() > 0 {
        lemma_sort_by_count_sorted(ps.drop_last(), descending);
        lemma_insert_by_count_ensures(
            ps.last(),
            sort_by_count_spec(ps.drop_last(), descending),
            descending,
        );
        assert(ps =~= ps.drop_last().push(ps.last()));
        assert(ps.drop_last().push(ps.last()).to_multiset() == ps.drop_last().to_multiset().insert(
            ps.last(),
        ));
    }
}

/// The sort is stable: for every count, the pairs holding that count come
/// out in exactly the order they went in, so ties keep their first-seen
/// relative order.
pub proof fn lemma_sort_by_count_stable(ps: Seq<(CellValue, int)>, descending: bool, c: int)
    ensures
        sort_by_count_spec(ps, descending).filter(with_count(c)) == ps.filter(with_count(c)),
    decreases ps.len(),
{
    reveal_with_fuel(Seq::<_>::filter, 2);
    let pred = with_count(c);
    if ps.len() > 0 {
        lemma_sort_by_count_stable(ps.drop_last(), descending, c);
        lemma_sort_by_count_sorted(ps.drop_last(), descending);
        lemma_insert_by_count_filter(
            ps.last(),
            sort_by_count_spec(ps.drop_last(), descending),
            descending,
            c,
        );
    }
}

fn count_beats_exec(a: usize, b: usize, descending: bool) -> (r: bool)
    ensures
        r == count_beats(a as int, b as int, descending),
{
    if descending {
        a > b
    } else {
        a < b
    }
}

proof fn lemma_insert_at(
    p: (CellValue, int),
    s: Seq<(CellValue, int)>,
    descending: bool,
    pos: int,
)
    requires
        0 <= pos <= s.len(),
        forall|k: int| 0 <= k < pos ==> !count_beats(p.1, s[k].1, descending),
        pos < s.len() ==> count_beats(p.1, s[pos].1, descending),
    ensures
        insert_by_count(p, s, descending) == s.take(pos) + seq![p] + s.skip(pos),
    decreases s.len(),
{
    if s.len() == 0 {
        assert(insert_by_count(p, s, descending) =~= s.take(pos) + seq![p] + s.skip(pos));
    } else if pos == 0 {
        assert(insert_by_count(p, s, descending) =~= s.take(0) + seq![p] + s.skip(0));
    } else {
        let tail = s.drop_first();
        assert(forall|k: int| 0 <= k < pos - 1 ==> tail[k] == s[k + 1]);
        lemma_insert_at(p, tail, descending, pos - 1);
        assert(seq![s[0]] + (tail.take(pos - 1) + seq![p] + tail.skip(pos - 1)) =~= s.take(pos)
            + seq![p] + s.skip(pos));
    }
}

impl GroupCount {
    /// Reorders the pairs by count, descending or ascending per the flag;
    /// pairs of equal count keep their relative order (stable sort).
    pub fn sort(&self, descending: bool) -> (r: GroupCount)
        requires
            self.well_formed(),
        ensures
            r.well_formed(),
            r@ == sort_by_count_spec(self@, descending),
    {
        let mut out_keys: Vec<Cell> = Vec::new();
        let mut out_counts: Vec<usize> = Vec::new();
        let mut i: usize = 0;
        while i < self.keys.len()
            invariant
                self.well_formed(),
                i <= self.keys@.len(),
                out_keys@.len() == out_counts@.len(),
                out_keys@.len() == i,
                pair_view(out_keys@, out_counts@) == sort_by_count_spec(
                    self@.take(i as int),
                    descending,
                ),
                forall|k: int|
                    0 <= k < out_keys@.len() ==> exists|j: int|
                        0 <= j < i && (#[trigger] out_keys@[k])@ == self.keys@[j]@,
                forall|k: int, l: int|
                    0 <= k < l < out_keys@.len() ==> out_keys@[k]@ != out_keys@[l]@,
            decreases self.keys@.len() - i,
        {
            let ghost prev = pair_view(out_keys@, out_counts@);
            let ghost kprev = out_keys@;
            let cnt = self.counts[i];
            let mut pos: usize = 0;
            while pos < out_counts.len() && !count_beats_exec(cnt, out_counts[pos], descending)
                invariant
                    pos <= out_counts@.len(),
                    out_keys@.len() == out_counts@.len(),
                    pair_view(out_keys@, out_counts@) == prev,
                    forall|k: int|
                        0 <= k < pos ==> !count_beats(
                            cnt as int,
                            #[trigger] (out_counts@[k]) as int,
                            descending,
                        ),
                decreases out_counts@.len() - pos,
            {
                pos = pos + 1;
            }
            proof {
                assert forall|k: int| 0 <= k < pos implies !count_beats(
                    (self@[i as int].1),
                    prev[k].1,
                    descending,
                ) by {
                    assert(prev[k].1 == out_counts@[k] as int);
                }
                if pos < out_counts@.len() {
                    assert(count_beats(self@[i as int].1, prev[pos as int].1, descending));
                }
                lemma_insert_at(self@[i as int], prev, descending, pos as int);
            }
            out_keys.insert(pos, dup_cell(&self.keys[i]));
            out_counts.insert(pos, cnt);
            proof {
                let pnew = pair_view(out_keys@, out_counts@);
                assert forall|k: int| 0 <= k < pnew.len() implies pnew[k] == (prev.take(pos as int)
                    + seq![self@[i as int]] + prev.skip(pos as int))[k] by {
                    assert(out_keys@ == kprev.insert(pos as int, out_keys@[pos as int]));
                    if k < pos {
                        assert(out_keys@[k] == kprev[k]);
                        assert(prev[k] == (kprev[k]@, out_counts@[k] as int));
                    } else if k > pos {
                        assert(out_keys@[k] == kprev[k - 1]);
                        assert(prev[k - 1] == (kprev[k - 1]@, out_counts@[k] as int));
                    }
                }
                assert(pair_view(out_keys@, out_counts@) =~= prev.take(pos as int) + seq![
                    self@[i as int]] + prev.skip(pos as int));
                assert(self@.take(i + 1).drop_last() =~= self@.take(i as int));
                assert(self@.take(i + 1).last() == self@[i as int]);
                assert(pair_view(out_keys@, out_counts@) == sort_by_count_spec(
                    self@.take(i + 1),
                    descending,
                ));
                // the key just inserted came from position i of the input,
                // every other key from an earlier position, so keys stay distinct
                assert forall|k: int| 0 <= k < out_keys@.len() implies exists|j: int|
                    0 <= j < i + 1 && (#[trigger] out_keys@[k])@ == self.keys@[j]@ by {
                    if k < pos {
                        let j = choose|j: int| 0 <= j < i && kprev[k]@ == self.keys@[j]@;
                        assert(out_keys@[k]@ == self.keys@[j]@);
                    } else if k == pos {
                        assert(out_keys@[k]@ == self.keys@[i as int]@);
                    } else {
                        let j = choose|j: int| 0 <= j < i && kprev[k - 1]@ == self.keys@[j]@;
                        assert(out_keys@[k]@ == self.keys@[j]@);
                    }
                }
                assert forall|k: int, l: int| 0 <= k < l < out_keys@.len() implies out_keys@[k]@
                    != out_keys@[l]@ by {
                    let ko = if k < pos { k } else { k - 1 };
                    let lo = if l < pos { l } else { l - 1 };
                    if k == pos {
                        let j = choose|j: int| 0 <= j < i && kprev[lo]@ == self.keys@[j]@;
                        assert(out_keys@[l]@ == self.keys@[j]@);
                        assert(out_keys@[k]@ == self.keys@[i as int]@);
                    } else if l == pos {
                        let j = choose|j: int| 0 <= j < i && kprev[ko]@ == self.keys@[j]@;
                        assert(out_keys@[k]@ == self.keys@[j]@);
                        assert(out_keys@[l]@ == self.keys@[i as int]@);
                    } else {
                        assert(out_keys@[k] == kprev[ko] && out_keys@[l] == kprev[lo]);
                    }
                }
            }
            i = i + 1;
        }
        proof {
            assert(self@.take(self@.len() as int) =~= self@);
        }
        GroupCount { keys: out_keys, counts: out_counts }
    }
}

} // verus!
