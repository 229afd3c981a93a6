use vstd::prelude::*;

use crate::aggregate::{
    count_value, first_seen_values, group_count, sort_by_count_spec, GroupCount,
};
use crate::column::{dup_bytes, CellValue, ColType, ColumnValue};
use crate::derived::{add_day_diff, day_diff_cells};
use crate::error::PipeError;
use crate::loader::{
    distinct_names, header_fields, kept_rows, load, load_view, schema_view, Schema,
};
use crate::normalize::{normalize_dates, normalize_view};
use crate::table::{table_view, view_col, Table};

verus! {

/// The configuration of one run: the field delimiter and the dataset's
/// column names, so a differently localized header is a matter of
/// configuration, not of code.
pub struct PipelineConfig {
    pub delimiter: u8,
    pub election_column: Vec<u8>,
    pub retirement_column: Vec<u8>,
    pub tenure_column: Vec<u8>,
    pub gender_column: Vec<u8>,
    pub party_column: Vec<u8>,
    pub canton_column: Vec<u8>,
}

/// Everything one run produces: the table after date normalization and the
/// derived tenure column, and the three groupings (party and canton sorted
/// by descending count, gender in first-seen order).
pub struct PipelineOutput {
    pub table: Table,
    pub by_gender: GroupCount,
    pub by_party: GroupCount,
    pub by_canton: GroupCount,
}

/// The schema a run loads under: the two date-bearing columns are forced to
/// text, deferring their parsing to the normalizer.
pub open spec fn pipeline_schema(cfg: PipelineConfig) -> Seq<(Seq<u8>, ColType)> {
    seq![(cfg.election_column@, ColType::Text), (cfg.retirement_column@, ColType::Text)]
}

/// The table a run produces: load, normalize both date columns, append the
/// tenure column (retirement day number minus election day number).
pub open spec fn pipeline_table(text: Seq<u8>, cfg: PipelineConfig) -> Seq<ColumnValue> {
    let loaded = load_view(text, cfg.delimiter, pipeline_schema(cfg));
    let t1 = normalize_view(loaded, cfg.election_column@);
    let t2 = normalize_view(t1, cfg.retirement_column@);
    t2.push(
        ColumnValue {
            name: cfg.tenure_column@,
            ty: ColType::Int,
            cells: day_diff_cells(
                t2,
                cfg.retirement_column@,
                cfg.election_column@,
                kept_rows(text, cfg.delimiter).len(),
            ),
        },
    )
}

/// The pairs a group-by-count over `cells` yields: the distinct values in
/// first-seen order, each with the number of rows holding it.
pub open spec fn group_pairs(cells: Seq<CellValue>) -> Seq<(CellValue, int)> {
    Seq::new(
        first_seen_values(cells).len(),
        |k: int| (first_seen_values(cells)[k], count_value(cells, first_seen_values(cells)[k])),
    )
}

/// The column names of the finished table: the header and the tenure column.
pub open spec fn pipeline_names(text: Seq<u8>, cfg: PipelineConfig) -> Seq<Seq<u8>> {
    header_fields(text, cfg.delimiter).push(cfg.tenure_column@)
}

/// Runs the whole pipeline on the raw input text. The result is a function
/// of the text and the configuration alone, so re-running it on the same
/// input yields the same table and the same group counts.
pub fn run_pipeline(text: &[u8], cfg: &PipelineConfig) -> (r: Result<PipelineOutput, PipeError>)
    ensures
        match r {
            Ok(o) => {
                let tv = pipeline_table(text@, *cfg);
                &&& o.table.well_formed()
                &&& o.by_gender.well_formed()
                &&& o.by_party.well_formed()
                &&& o.by_canton.well_formed()
                &&& table_view(o.table) == tv
                &&& o.by_gender@ == group_pairs(view_col(tv, cfg.gender_column@).cells)
                &&& o.by_party@ == sort_by_count_spec(
                    group_pairs(view_col(tv, cfg.party_column@).cells),
                    true,
                )
                &&& o.by_canton@ == sort_by_count_spec(
                    group_pairs(view_col(tv, cfg.canton_column@).cells),
                    true,
                )
            },
            Err(PipeError::DuplicateColumn) => !distinct_names(
                header_fields(text@, cfg.delimiter),
            ),
            Err(PipeError::SchemaColumnMissing) => {
                let hf = header_fields(text@, cfg.delimiter);
                &&& distinct_names(hf)
                &&& !(hf.contains(cfg.election_column@) && hf.contains(cfg.retirement_column@))
            },
            Err(PipeError::ColumnExists) => {
                let hf = header_fields(text@, cfg.delimiter);
                &&& distinct_names(hf)
                &&& hf.contains(cfg.election_column@)
                &&& hf.contains(cfg.retirement_column@)
                &&& hf.contains(cfg.tenure_column@)
            },
            Err(e) => {
                let hf = header_fields(text@, cfg.delimiter);
                let names = pipeline_names(text@, *cfg);
                &&& e == PipeError::ColumnNotFound
                &&& distinct_names(hf)
                &&& hf.contains(cfg.election_column@)
                &&& hf.contains(cfg.retirement_column@)
                &&& !hf.contains(cfg.tenure_column@)
                &&& !(names.contains(cfg.gender_column@) && names.contains(cfg.party_column@)
                    && names.contains(cfg.canton_column@))
            },
        },
{
    let ghost hf = header_fields(text@, cfg.delimiter);
    let mut overrides: Vec<(Vec<u8>, ColType)> = Vec::new();
    overrides.push((dup_bytes(cfg.election_column.as_slice()), ColType::Text));
    overrides.push((dup_bytes(cfg.retirement_column.as_slice()), ColType::Text));
    let schema = Schema { overrides };
    proof {
        assert(schema_view(schema.overrides@) =~= pipeline_schema(*cfg));
    }
    let mut table = match load(text, cfg.delimiter, &schema) {
        Ok(t) => t,
        Err(e) => {
            proof {
                if e == PipeError::SchemaColumnMissing {
                    assert(pipeline_schema(*cfg)[0].0 == cfg.election_column@);
                    assert(pipeline_schema(*cfg)[1].0 == cfg.retirement_column@);
                }
            }
            return Err(e);
        },
    };
    proof {
        assert(pipeline_schema(*cfg)[0].0 == cfg.election_column@);
        assert(pipeline_schema(*cfg)[1].0 == cfg.retirement_column@);
        assert(hf.contains(cfg.election_column@));
        assert(hf.contains(cfg.retirement_column@));
    }
    let ghost loaded = table_view(table);
    proof {
        assert forall|k: int| 0 <= k < table.cols@.len() implies (#[trigger] table.cols@[k]).name@
            == hf[k] by {
            assert(table_view(table)[k] == table.cols@[k]@);
            assert(loaded[k].name == hf[k]);
        }
        lemma_present(table, hf, cfg.election_column@);
    }
    match normalize_dates(&mut table, cfg.election_column.as_slice()) {
        Ok(()) => (),
        Err(e) => {
            proof {
                assert(false);
            }
            return Err(e);
        },
    }
    let ghost t1v = table_view(table);
    proof {
        assert forall|k: int| 0 <= k < table.cols@.len() implies (#[trigger] table.cols@[k]).name@
            == hf[k] by {
            assert(table_view(table)[k] == table.cols@[k]@);
            assert(t1v[k] == normalize_view(loaded, cfg.election_column@)[k]);
            assert(t1v[k].name == loaded[k].name);
            assert(loaded[k].name == hf[k]);
        }
        lemma_present(table, hf, cfg.retirement_column@);
    }
    match normalize_dates(&mut table, cfg.retirement_column.as_slice()) {
        Ok(()) => (),
        Err(e) => {
            proof {
                assert(false);
            }
            return Err(e);
        },
    }
    proof {
        assert forall|k: int| 0 <= k < table.cols@.len() implies (#[trigger] table.cols@[k]).name@
            == hf[k] by {
            assert(table_view(table)[k] == table.cols@[k]@);
            assert(table_view(table)[k] == normalize_view(t1v, cfg.retirement_column@)[k]);
            assert(table_view(table)[k].name == t1v[k].name);
            assert(t1v[k] == normalize_view(loaded, cfg.election_column@)[k]);
            assert(t1v[k].name == loaded[k].name);
            assert(loaded[k].name == hf[k]);
        }
        lemma_present(table, hf, cfg.election_column@);
        lemma_present(table, hf, cfg.retirement_column@);
        if table.has_column(cfg.tenure_column@) {
            let k = choose|k: int|
                0 <= k < table.cols@.len() && table.cols@[k].name@ == cfg.tenure_column@;
            assert(hf[k] == cfg.tenure_column@);
            assert(hf.contains(cfg.tenure_column@));
        }
        if hf.contains(cfg.tenure_column@) {
            let k = choose|k: int| 0 <= k < hf.len() && hf[k] == cfg.tenure_column@;
            assert(table.cols@[k].name@ == cfg.tenure_column@);
            assert(table.has_column(cfg.tenure_column@));
        }
    }
    match add_day_diff(
        &mut table,
        cfg.tenure_column.as_slice(),
        cfg.retirement_column.as_slice(),
        cfg.election_column.as_slice(),
    ) {
        Ok(()) => (),
        Err(e) => {
            return Err(e);
        },
    }
    proof {
        assert(table_view(table) =~= pipeline_table(text@, *cfg));
    }
    let ghost tv = pipeline_table(text@, *cfg);
    proof {
        assert forall|k: int| 0 <= k < table.cols@.len() implies (#[trigger] table.cols@[k]).name@
            == pipeline_names(text@, *cfg)[k] by {
            assert(table_view(table)[k] == table.cols@[k]@);
        }
        assert(table.cols@.len() == pipeline_names(text@, *cfg).len());
    }
    let by_gender = match group_count(&table, cfg.gender_column.as_slice()) {
        Ok(g) => g,
        Err(e) => {
            proof {
                lemma_absent_name(table, pipeline_names(text@, *cfg), cfg.gender_column@);
            }
            return Err(e);
        },
    };
    let party_raw = match group_count(&table, cfg.party_column.as_slice()) {
        Ok(g) => g,
        Err(e) => {
            proof {
                lemma_absent_name(table, pipeline_names(text@, *cfg), cfg.party_column@);
            }
            return Err(e);
        },
    };
    let by_party = party_raw.sort(true);
    let canton_raw = match group_count(&table, cfg.canton_column.as_slice()) {
        Ok(g) => g,
        Err(e) => {
            proof {
                lemma_absent_name(table, pipeline_names(text@, *cfg), cfg.canton_column@);
            }
            return Err(e);
        },
    };
    let by_canton = canton_raw.sort(true);
    proof {
        lemma_group_is_pairs(by_gender@, view_col(tv, cfg.gender_column@).cells);
        lemma_group_is_pairs(party_raw@, view_col(tv, cfg.party_column@).cells);
        lemma_group_is_pairs(canton_raw@, view_col(tv, cfg.canton_column@).cells);
    }
    Ok(PipelineOutput { table, by_gender, by_party, by_canton })
}

/// A name the header carries names some column, when column names follow
/// the header.
proof fn lemma_present(t: Table, hf: Seq<Seq<u8>>, name: Seq<u8>)
    requires
        hf.contains(name),
        t.cols@.len() == hf.len(),
        forall|k: int| 0 <= k < t.cols@.len() ==> (#[trigger] t.cols@[k]).name@ == hf[k],
    ensures
        t.has_column(name),
{
    let k = choose|k: int| 0 <= k < hf.len() && hf[k] == name;
    assert(t.cols@[k].name@ == name);
}

/// A name no column carries is absent from the name list.
proof fn lemma_absent_name(t: Table, names: Seq<Seq<u8>>, name: Seq<u8>)
    requires
        !t.has_column(name),
        t.cols@.len() == names.len(),
        forall|k: int| 0 <= k < t.cols@.len() ==> (#[trigger] t.cols@[k]).name@ == names[k],
    ensures
        !names.contains(name),
{
    if names.contains(name) {
        let k = choose|k: int| 0 <= k < names.len() && names[k] == name;
        assert(t.cols@[k].name@ == name);
    }
}

/// A group count whose keys are the first-seen values and whose counts are
/// the value counts is exactly `group_pairs`.
proof fn lemma_group_is_pairs(g: Seq<(CellValue, int)>, cells: Seq<CellValue>)
    requires
        crate::aggregate::group_keys(g) == first_seen_values(cells),
        forall|k: int| 0 <= k < g.len() ==> (#[trigger] g[k]).1 == count_value(cells, g[k].0),
    ensures
        g == group_pairs(cells),
{
    assert(g.len() == first_seen_values(cells).len()) by {
        assert(crate::aggregate::group_keys(g).len() == g.len());
    }
    assert forall|k: int| 0 <= k < g.len() implies g[k] == group_pairs(cells)[k] by {
        assert(crate::aggregate::group_keys(g)[k] == g[k].0);
        assert(first_seen_values(cells)[k] == g[k].0);
    }
    assert(g =~= group_pairs(cells));
}

} // verus!
