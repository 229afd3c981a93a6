use vstd::prelude::*;

use crate::aggregate::GroupCount;
use crate::column::{dup_bytes, Cell, CellValue};

verus! {

/// Every category value of the group count is text, so each group can label
/// a bar.
pub open spec fn all_text_keys(ps: Seq<(CellValue, int)>) -> bool {
    forall|i: int| 0 <= i < ps.len() ==> (#[trigger] ps[i]).0 is Text
}

/// The bar-chart inputs of a group count: one text label and one count per
/// group, positionally matched, in the group count's order. `None` when some
/// category value is not text (a null group cannot label a bar).
pub fn chart_inputs(g: &GroupCount) -> (r: Option<(Vec<Vec<u8>>, Vec<usize>)>)
    requires
        g.well_formed(),
    ensures
        match r {
            Some(lv) => {
                &&& all_text_keys(g@)
                &&& lv.0@.len() == g@.len()
                &&& lv.1@.len() == g@.len()
                &&& forall|i: int|
                    0 <= i < g@.len() ==> g@[i].0 == CellValue::Text((#[trigger] lv.0@[i])@)
                &&& forall|i: int| 0 <= i < g@.len() ==> (#[trigger] lv.1@[i]) as int == g@[i].1
            },
            None => !all_text_keys(g@),
        },
{
    let n = g.len();
    let mut labels: Vec<Vec<u8>> = Vec::new();
    let mut values: Vec<usize> = Vec::new();
    let mut i: usize = 0;
    while i < n
        invariant
            g.well_formed(),
            n == g@.len(),
            i <= n,
            labels@.len() == i,
            values@.len() == i,
            forall|k: int| 0 <= k < i ==> g@[k].0 == CellValue::Text((#[trigger] labels@[k])@),
            forall|k: int| 0 <= k < i ==> (#[trigger] values@[k]) as int == g@[k].1,
        decreases n - i,
    {
        let key = g.key_at(i);
        match key {
            Cell::Text(v) => {
                labels.push(dup_bytes(v.as_slice()));
                values.push(g.count_at(i));
            },
            _ => {
                proof {
                    assert(!(g@[i as int].0 is Text));
                }
                return None;
            },
        }
        i = i + 1;
    }
    proof {
        assert forall|k: int| 0 <= k < g@.len() implies (#[trigger] g@[k]).0 is Text by {
            assert(g@[k].0 == CellValue::Text(labels@[k]@));
        }
    }
    Some((labels, values))
}

} // verus!
