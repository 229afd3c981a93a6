use vstd::prelude::*;

use crate::column::{
    bytes_eq, cell_has_type, cells_view, dup_bytes, Cell, CellValue, ColType, Column, ColumnValue,
};
use crate::date::{digit_val, is_digit, parse_date, parse_date_spec};
use crate::error::PipeError;
use crate::table::{table_view, Table};

verus! {

/// The fields of `s` between occurrences of `sep`: empty fields are kept,
/// and a text without separators is one field (so an empty text is one
/// empty field).
pub open spec fn split(s: Seq<u8>, sep: u8) -> Seq<Seq<u8>>
    decreases s.len(),
{
    if s.len() == 0 {
        seq![s]
    } else if s[0] == sep {
        seq![Seq::<u8>::empty()] + split(s.drop_first(), sep)
    } else {
        let r = split(s.drop_first(), sep);
        seq![seq![s[0]] + r[0]] + r.drop_first()
    }
}

pub proof fn lemma_split_len(s: Seq<u8>, sep: u8)
    ensures
        split(s, sep).len() >= 1,
    decreases s.len(),
{
    if s.len() > 0 {
        lemma_split_len(s.drop_first(), sep);
    }
}

/// A text without the separator is one field: itself.
pub proof fn lemma_split_no_sep(s: Seq<u8>, sep: u8)
    requires
        forall|k: int| 0 <= k < s.len() ==> s[k] != sep,
    ensures
        split(s, sep) == seq![s],
    decreases s.len(),
{
    if s.len() > 0 {
        assert(forall|k: int| 0 <= k < s.drop_first().len() ==> s.drop_first()[k] == s[k + 1]);
        lemma_split_no_sep(s.drop_first(), sep);
        assert(seq![seq![s[0]] + s.drop_first()] + seq![s.drop_first()].drop_first() =~~= seq![s]);
    }
}

/// Splitting at the first separator: the text before it is the first field,
/// the rest splits on its own.
pub proof fn lemma_split_at_first(s: Seq<u8>, sep: u8, k: int)
    requires
        0 <= k < s.len(),
        s[k] == sep,
        forall|j: int| 0 <= j < k ==> s[j] != sep,
    ensures
        split(s, sep) == seq![s.take(k)] + split(s.skip(k + 1), sep),
    decreases k,
{
    if k == 0 {
        assert(s.take(0) =~= Seq::<u8>::empty());
        assert(s.skip(1) =~= s.drop_first());
        assert(split(s, sep) =~~= seq![s.take(0)] + split(s.skip(1), sep));
    } else {
        let t = s.drop_first();
        assert(forall|j: int| 0 <= j < t.len() ==> t[j] == s[j + 1]);
        lemma_split_at_first(t, sep, k - 1);
        let r = split(t, sep);
        assert(r == seq![t.take(k - 1)] + split(t.skip(k), sep));
        assert(r[0] == t.take(k - 1));
        assert(r.drop_first() =~= split(t.skip(k), sep));
        assert(seq![s[0]] + t.take(k - 1) =~= s.take(k));
        assert(t.skip(k) =~= s.skip(k + 1));
        assert(split(s, sep) =~~= seq![s.take(k)] + split(s.skip(k + 1), sep));
    }
}

/// The mathematical values of a vector of byte strings.
pub open spec fn fields_view(f: Seq<Vec<u8>>) -> Seq<Seq<u8>> {
    f.map_values(|v: Vec<u8>| v@)
}

/// A fresh copy of the bytes of `s` from `from` to `to`.
fn sub_bytes(s: &[u8], from: usize, to: usize) -> (r: Vec<u8>)
    requires
        from <= to <= s@.len(),
    ensures
        r@ == s@.subrange(from as int, to as int),
{
    let mut r: Vec<u8> = Vec::new();
    let mut j: usize = from;
    while j < to
        invariant
            from <= j <= to <= s@.len(),
            r@ == s@.subrange(from as int, j as int),
        decreases to - j,
    {
        r.push(s[j]);
        proof {
            assert(r@ =~= s@.subrange(from as int, j + 1));
        }
        j = j + 1;
    }
    r
}

/// Splits `s` at every occurrence of `sep`.
pub fn split_bytes(s: &[u8], sep: u8) -> (r: Vec<Vec<u8>>)
    ensures
        fields_view(r@) == split(s@, sep),
{
    let mut out: Vec<Vec<u8>> = Vec::new();
    let mut start: usize = 0;
    let mut i: usize = 0;
    proof {
        assert(s@.skip(0) =~= s@);
        assert(fields_view(out@) + split(s@.skip(0), sep) =~= split(s@, sep));
    }
    while i < s.len()
        invariant
            start <= i <= s@.len(),
            forall|j: int| start <= j < i ==> s@[j] != sep,
            split(s@, sep) == fields_view(out@) + split(s@.skip(start as int), sep),
        decreases s@.len() - i,
    {
        if s[i] == sep {
            let field = sub_bytes(s, start, i);
            proof {
                let tail = s@.skip(start as int);
                assert(tail[i - start as int] == sep);
                assert(forall|j: int| 0 <= j < i - start as int ==> tail[j] == s@[j + start]);
                lemma_split_at_first(tail, sep, i - start as int);
                assert(tail.take(i - start as int) =~= s@.subrange(start as int, i as int));
                assert(tail.skip(i - start as int + 1) =~= s@.skip(i + 1));
            }
            let ghost out_prev = out@;
            out.push(field);
            proof {
                assert(fields_view(out@) =~= fields_view(out_prev).push(field@));
                assert(fields_view(out_prev).push(field@) + split(s@.skip(i + 1), sep) =~= fields_view(
                    out_prev,
                ) + (seq![field@] + split(s@.skip(i + 1), sep)));
            }
            start = i + 1;
        }
        i = i + 1;
    }
    let field = sub_bytes(s, start, s.len());
    proof {
        let tail = s@.skip(start as int);
        assert(forall|j: int| 0 <= j < tail.len() ==> tail[j] == s@[j + start]);
        lemma_split_no_sep(tail, sep);
        assert(tail =~= s@.subrange(start as int, s@.len() as int));
    }
    let ghost out_prev = out@;
    out.push(field);
    proof {
        assert(fields_view(out@) =~= fields_view(out_prev).push(field@));
        assert(fields_view(out_prev).push(field@) =~= fields_view(out_prev) + seq![field@]);
    }
    out
}

/// A run of decimal digits read as a number, most significant first.
pub open spec fn digits_val(s: Seq<u8>) -> int
    decreases s.len(),
{
    if s.len() == 0 {
        0
    } else {
        digits_val(s.drop_last()) * 10 + digit_val(s.last())
    }
}

pub open spec fn all_digits(s: Seq<u8>) -> bool {
    forall|k: int| 0 <= k < s.len() ==> is_digit(#[trigger] s[k])
}

/// The text spells an integer: an optional minus sign and then only digits,
/// at most eighteen of them, so the value always fits a 64-bit integer.
pub open spec fn int_text_wf(s: Seq<u8>) -> bool {
    if s.len() == 0 {
        false
    } else if s[0] == 45u8 {
        2 <= s.len() <= 19 && all_digits(s.skip(1))
    } else {
        s.len() <= 18 && all_digits(s)
    }
}

/// The integer an integer-shaped text spells.
pub open spec fn int_text_val(s: Seq<u8>) -> int {
    if s.len() > 0 && s[0] == 45u8 {
        -digits_val(s.skip(1))
    } else {
        digits_val(s)
    }
}

pub open spec fn pow10(n: nat) -> int
    decreases n,
{
    if n == 0 {
        1
    } else {
        10 * pow10((n - 1) as nat)
    }
}

proof fn lemma_pow10_18()
    ensures
        pow10(18) == 1000000000000000000,
{
    reveal_with_fuel(pow10, 19);
}

/// Reads a run of digits; the caller limits the length so no overflow can
/// arise.
fn parse_digits(s: &[u8], from: usize) -> (r: Option<i64>)
    requires
        from < s@.len(),
        s@.len() - from <= 18,
    ensures
        match r {
            Some(v) => all_digits(s@.skip(from as int)) && v as int == digits_val(
                s@.skip(from as int),
            ) && 0 <= v < 1000000000000000000,
            None => !all_digits(s@.skip(from as int)),
        },
{
    proof {
        lemma_pow10_18();
    }
    let ghost tail = s@.skip(from as int);
    let mut acc: i64 = 0;
    let mut j: usize = from;
    while j < s.len()
        invariant
            from <= j <= s@.len(),
            s@.len() - from <= 18,
            tail == s@.skip(from as int),
            forall|k: int| 0 <= k < j - from ==> is_digit(#[trigger] tail[k]),
            acc as int == digits_val(tail.take(j - from as int)),
            0 <= acc < pow10((j - from) as nat),
            pow10(18) == 1000000000000000000,
        decreases s@.len() - j,
    {
        let b = s[j];
        if !(48 <= b && b <= 57) {
            proof {
                assert(tail[j - from as int] == b);
                assert(!all_digits(tail));
            }
            return None;
        }
        proof {
            assert(tail[j - from as int] == b);
            assert(tail.take(j - from as int + 1).drop_last() =~= tail.take(j - from as int));
            assert(tail.take(j - from as int + 1).last() == b);
            let n = (j - from) as nat;
            assert(pow10(n + 1) == 10 * pow10(n));
            assert(acc * 10 <= (pow10(n) - 1) * 10) by (nonlinear_arith)
                requires
                    acc < pow10(n),
                    0 <= acc,
            ;
            lemma_pow10_monotone(n + 1, 18);
        }
        acc = acc * 10 + (b as i64 - 48);
        j = j + 1;
    }
    proof {
        assert(tail.take(tail.len() as int) =~= tail);
        lemma_pow10_monotone(tail.len() as nat, 18);
    }
    Some(acc)
}

proof fn lemma_pow10_monotone(a: nat, b: nat)
    requires
        a <= b,
    ensures
        pow10(a) <= pow10(b),
    decreases b,
{
    if a < b {
        lemma_pow10_monotone(a, (b - 1) as nat);
        assert(pow10(b) == 10 * pow10((b - 1) as nat));
        assert(pow10(a) >= 1) by {
            lemma_pow10_positive(a);
        }
        lemma_pow10_positive((b - 1) as nat);
    }
}

proof fn lemma_pow10_positive(n: nat)
    ensures
        pow10(n) >= 1,
    decreases n,
{
    if n > 0 {
        lemma_pow10_positive((n - 1) as nat);
    }
}

/// Parses integer-shaped text; `None` for anything else.
pub fn parse_int(s: &[u8]) -> (r: Option<i64>)
    ensures
        match r {
            Some(v) => int_text_wf(s@) && v as int == int_text_val(s@),
            None => !int_text_wf(s@),
        },
{
    if s.len() == 0 {
        return None;
    }
    if s[0] == 45 {
        if s.len() < 2 || s.len() > 19 {
            return None;
        }
        match parse_digits(s, 1) {
            Some(v) => Some(-v),
            None => None,
        }
    } else {
        if s.len() > 18 {
            return None;
        }
        match parse_digits(s, 0) {
            Some(v) => {
                proof {
                    assert(s@.skip(0) =~= s@);
                }
                Some(v)
            },
            None => {
                proof {
                    assert(s@.skip(0) =~= s@);
                }
                None
            },
        }
    }
}

/// The columns whose declared type overrides inference at load time.
pub struct Schema {
    pub overrides: Vec<(Vec<u8>, ColType)>,
}

/// The mathematical value of a schema: named type overrides, in order.
pub open spec fn schema_view(ov: Seq<(Vec<u8>, ColType)>) -> Seq<(Seq<u8>, ColType)> {
    ov.map_values(|e: (Vec<u8>, ColType)| (e.0@, e.1))
}

/// The first declared type for `name`, if any.
pub open spec fn schema_lookup(sv: Seq<(Seq<u8>, ColType)>, name: Seq<u8>) -> Option<ColType>
    decreases sv.len(),
{
    if sv.len() == 0 {
        None
    } else if sv[0].0 == name {
        Some(sv[0].1)
    } else {
        schema_lookup(sv.drop_first(), name)
    }
}

impl Schema {
    /// The declared type for `name`, if the schema names it.
    pub fn lookup(&self, name: &[u8]) -> (r: Option<ColType>)
        ensures
            r == schema_lookup(schema_view(self.overrides@), name@),
    {
        let ghost sv = schema_view(self.overrides@);
        proof {
            assert(sv.skip(0) =~= sv);
        }
        let mut j: usize = 0;
        while j < self.overrides.len()
            invariant
                j <= self.overrides@.len(),
                sv == schema_view(self.overrides@),
                sv.len() == self.overrides@.len(),
                schema_lookup(sv, name@) == schema_lookup(sv.skip(j as int), name@),
            decreases self.overrides@.len() - j,
        {
            proof {
                assert(sv[j as int] == (self.overrides@[j as int].0@, self.overrides@[j as int].1));
                assert(sv.skip(j as int)[0] == sv[j as int]);
            }
            if bytes_eq(self.overrides[j].0.as_slice(), name) {
                return Some(self.overrides[j].1);
            }
            proof {
                assert(sv.skip(j as int).drop_first() =~= sv.skip(j + 1));
            }
            j = j + 1;
        }
        None
    }
}

/// The rows of a given field count.
pub open spec fn width_pred(w: int) -> spec_fn(Seq<Seq<u8>>) -> bool {
    |f: Seq<Seq<u8>>| f.len() == w
}

pub open spec fn rows_of_width(rows: Seq<Seq<Seq<u8>>>, w: int) -> Seq<Seq<Seq<u8>>> {
    rows.filter(width_pred(w))
}

proof fn lemma_rows_filter_push(rows: Seq<Seq<Seq<u8>>>, x: Seq<Seq<u8>>, w: int)
    ensures
        rows_of_width(rows.push(x), w) == if x.len() == w {
            rows_of_width(rows, w).push(x)
        } else {
            rows_of_width(rows, w)
        },
{
    reveal_with_fuel(Seq::<_>::filter, 2);
    assert(rows.push(x).drop_last() =~= rows);
}

/// Every line split into fields.
pub open spec fn split_rows(lines: Seq<Seq<u8>>, delim: u8) -> Seq<Seq<Seq<u8>>> {
    lines.map_values(|l: Seq<u8>| split(l, delim))
}

/// The lines of the input text.
pub open spec fn load_lines(text: Seq<u8>) -> Seq<Seq<u8>> {
    split(text, 10u8)
}

/// The header: the fields of the first line.
pub open spec fn header_fields(text: Seq<u8>, delim: u8) -> Seq<Seq<u8>> {
    split(load_lines(text)[0], delim)
}

/// The body rows that survive delimiter-level parsing: those whose field
/// count equals the header's.
pub open spec fn kept_rows(text: Seq<u8>, delim: u8) -> Seq<Seq<Seq<u8>>> {
    rows_of_width(
        split_rows(load_lines(text).skip(1), delim),
        header_fields(text, delim).len() as int,
    )
}

/// What a raw field becomes under a declared type. An empty text field and
/// a field that fails to parse under an integer or date type degrade to
/// null; the load never aborts over a cell.
pub open spec fn cell_of(ty: ColType, raw: Seq<u8>) -> CellValue {
    match ty {
        ColType::Text => if raw.len() == 0 {
            CellValue::Null
        } else {
            CellValue::Text(raw)
        },
        ColType::Int => if int_text_wf(raw) {
            CellValue::Int(int_text_val(raw))
        } else {
            CellValue::Null
        },
        ColType::Date => match parse_date_spec(raw) {
            Some(d) => CellValue::Date(d),
            None => CellValue::Null,
        },
    }
}

/// The raw fields of one column, top to bottom.
pub open spec fn column_raws(kept: Seq<Seq<Seq<u8>>>, j: int) -> Seq<Seq<u8>> {
    kept.map_values(|row: Seq<Seq<u8>>| row[j])
}

/// Every field of the column is empty or integer-shaped, so the column can
/// be inferred as an integer column.
pub open spec fn all_int_shaped(raws: Seq<Seq<u8>>) -> bool {
    forall|i: int| 0 <= i < raws.len() ==> (#[trigger] raws[i]).len() == 0 || int_text_wf(raws[i])
}

/// The type a loaded column gets: the schema's say where it names the
/// column, else an inferred integer or text type.
pub open spec fn loaded_col_type(
    sv: Seq<(Seq<u8>, ColType)>,
    raws: Seq<Seq<u8>>,
    name: Seq<u8>,
) -> ColType {
    match schema_lookup(sv, name) {
        Some(ty) => ty,
        None => if all_int_shaped(raws) {
            ColType::Int
        } else {
            ColType::Text
        },
    }
}

/// The cells of a column: each raw field under the column's type.
pub open spec fn cells_of(ty: ColType, raws: Seq<Seq<u8>>) -> Seq<CellValue> {
    Seq::new(raws.len(), |i: int| cell_of(ty, raws[i]))
}

/// The column at position `j` of the loaded table.
pub open spec fn loaded_column(
    text: Seq<u8>,
    delim: u8,
    sv: Seq<(Seq<u8>, ColType)>,
    j: int,
) -> ColumnValue {
    let name = header_fields(text, delim)[j];
    let raws = column_raws(kept_rows(text, delim), j);
    let ty = loaded_col_type(sv, raws, name);
    ColumnValue { name, ty, cells: cells_of(ty, raws) }
}

/// The whole loaded table: one column per header field.
pub open spec fn load_view(text: Seq<u8>, delim: u8, sv: Seq<(Seq<u8>, ColType)>) -> Seq<
    ColumnValue,
> {
    Seq::new(header_fields(text, delim).len(), |j: int| loaded_column(text, delim, sv, j))
}

pub open spec fn distinct_names(header: Seq<Seq<u8>>) -> bool {
    forall|i: int, j: int| 0 <= i < j < header.len() ==> header[i] != header[j]
}

pub open spec fn schema_names_present(sv: Seq<(Seq<u8>, ColType)>, header: Seq<Seq<u8>>) -> bool {
    forall|k: int| 0 <= k < sv.len() ==> header.contains((#[trigger] sv[k]).0)
}

/// Loads delimited text with a header line into a typed table. Columns the
/// schema names get their declared type; every other column is inferred as
/// integer or text. Body lines whose field count differs from the header's
/// are rejected; all others contribute one row, so the row count is the
/// number of non-header lines minus the rejected ones, and the column count
/// is the header's field count. Cells that fail to parse become null.
pub fn load(text: &[u8], delimiter: u8, schema: &Schema) -> (r: Result<Table, PipeError>)
    ensures
        match r {
            Ok(t) => {
                &&& distinct_names(header_fields(text@, delimiter))
                &&& schema_names_present(
                    schema_view(schema.overrides@),
                    header_fields(text@, delimiter),
                )
                &&& t.well_formed()
                &&& table_view(t) == load_view(text@, delimiter, schema_view(schema.overrides@))
                &&& t.cols@.len() == header_fields(text@, delimiter).len()
                &&& t.spec_row_count() == kept_rows(text@, delimiter).len()
            },
            Err(PipeError::DuplicateColumn) => !distinct_names(header_fields(text@, delimiter)),
            Err(e) => {
                &&& e == PipeError::SchemaColumnMissing
                &&& distinct_names(header_fields(text@, delimiter))
                &&& !schema_names_present(
                    schema_view(schema.overrides@),
                    header_fields(text@, delimiter),
                )
            },
        },
{
    let lines = split_bytes(text, 10);
    proof {
        lemma_split_len(text@, 10);
    }
    let header = split_bytes(lines[0].as_slice(), delimiter);
    let ghost hf = header_fields(text@, delimiter);
    proof {
        assert(fields_view(lines@)[0] == lines@[0]@);
        assert(fields_view(header@) == hf);
        lemma_split_len(lines@[0]@, delimiter);
    }
    let w = header.len();
    // reject a header that names a column twice: no well-formed table exists
    let mut i: usize = 0;
    while i < header.len()
        invariant
            i <= header@.len(),
            hf == header_fields(text@, delimiter),
            fields_view(header@) == hf,
            header@.len() == hf.len(),
            forall|a: int, b: int| 0 <= a < b < hf.len() && a < i ==> hf[a] != hf[b],
        decreases header@.len() - i,
    {
        let mut j: usize = i + 1;
        while j < header.len()
            invariant
                i < j <= header@.len(),
                hf == header_fields(text@, delimiter),
                fields_view(header@) == hf,
                header@.len() == hf.len(),
                forall|b: int| i < b < j ==> hf[i as int] != hf[b],
            decreases header@.len() - j,
        {
            if bytes_eq(header[i].as_slice(), header[j].as_slice()) {
                proof {
                    assert(hf[i as int] == header@[i as int]@);
                    assert(hf[j as int] == header@[j as int]@);
                    assert(!distinct_names(hf));
                }
                return Err(PipeError::DuplicateColumn);
            }
            j = j + 1;
        }
        i = i + 1;
    }
    // every schema-named column must exist in the header
    let ghost sv = schema_view(schema.overrides@);
    let mut k: usize = 0;
    while k < schema.overrides.len()
        invariant
            k <= schema.overrides@.len(),
            hf == header_fields(text@, delimiter),
            distinct_names(hf),
            fields_view(header@) == hf,
            header@.len() == hf.len(),
            sv == schema_view(schema.overrides@),
            sv.len() == schema.overrides@.len(),
            forall|k0: int| 0 <= k0 < k ==> hf.contains((#[trigger] sv[k0]).0),
        decreases schema.overrides@.len() - k,
    {
        let name = &schema.overrides[k].0;
        proof {
            assert(sv[k as int] == (schema.overrides@[k as int].0@, schema.overrides@[k as int].1));
        }
        let mut j: usize = 0;
        let mut found = false;
        while j < header.len()
            invariant
                j <= header@.len(),
                hf == header_fields(text@, delimiter),
                fields_view(header@) == hf,
                header@.len() == hf.len(),
                !found ==> forall|b: int| 0 <= b < j ==> hf[b] != name@,
                found ==> hf.contains(name@),
            decreases header@.len() - j,
        {
            if bytes_eq(header[j].as_slice(), name.as_slice()) {
                proof {
                    assert(hf[j as int] == name@);
                }
                found = true;
            }
            j = j + 1;
        }
        if !found {
            proof {
                assert(name@ == sv[k as int].0);
                assert(forall|b: int| 0 <= b < hf.len() ==> hf[b] != name@);
                assert(!hf.contains(sv[k as int].0));
                assert(!schema_names_present(sv, hf));
            }
            return Err(PipeError::SchemaColumnMissing);
        }
        k = k + 1;
    }
    // keep the body rows whose field count matches the header
    let ghost body = split_rows(load_lines(text@).skip(1), delimiter);
    let mut kept: Vec<Vec<Vec<u8>>> = Vec::new();
    let mut li: usize = 1;
    proof {
        assert(body.take(0) =~= Seq::<Seq<Seq<u8>>>::empty());
        reveal_with_fuel(Seq::<_>::filter, 1);
        assert(rows3_view(kept@) =~= rows_of_width(body.take(0), w as int));
    }
    while li < lines.len()
        invariant
            1 <= li <= lines@.len(),
            w == header@.len(),
            fields_view(lines@) == load_lines(text@),
            body == split_rows(load_lines(text@).skip(1), delimiter),
            body.len() == lines@.len() - 1,
            rows3_view(kept@) == rows_of_width(body.take(li - 1), w as int),
            forall|i0: int| 0 <= i0 < kept@.len() ==> (#[trigger] kept@[i0])@.len() == w,
        decreases lines@.len() - li,
    {
        let fields = split_bytes(lines[li].as_slice(), delimiter);
        proof {
            assert(load_lines(text@).skip(1)[li - 1] == load_lines(text@)[li as int]);
            assert(body[li - 1] == split(lines@[li as int]@, delimiter));
            assert(fields_view(fields@) == body[li - 1]);
            assert(body.take(li as int).drop_last() =~= body.take(li - 1));
            assert(body.take(li as int).last() == body[li - 1]);
            lemma_rows_filter_push(body.take(li - 1), body[li - 1], w as int);
            assert(body.take(li - 1).push(body[li - 1]) =~= body.take(li as int));
        }
        if fields.len() == w {
            let ghost kept_prev = kept@;
            kept.push(fields);
            proof {
                assert(rows3_view(kept@) =~= rows3_view(kept_prev).push(
                    fields_view(kept@[kept@.len() - 1]@),
                ));
            }
        }
        li = li + 1;
    }
    proof {
        assert(body.take(lines@.len() - 1) =~= body);
        assert(rows3_view(kept@) == kept_rows(text@, delimiter));
    }
    let ghost keptv = rows3_view(kept@);
    let n_rows = kept.len();
    // build one column per header field
    let mut cols: Vec<Column> = Vec::new();
    let mut j: usize = 0;
    while j < header.len()
        invariant
            j <= header@.len(),
            w == header@.len(),
            hf == header_fields(text@, delimiter),
            fields_view(header@) == hf,
            header@.len() == hf.len(),
            keptv == rows3_view(kept@),
            keptv == kept_rows(text@, delimiter),
            n_rows == kept@.len(),
            forall|i0: int| 0 <= i0 < kept@.len() ==> (#[trigger] kept@[i0])@.len() == w,
            cols@.len() == j,
            forall|jj: int|
                0 <= jj < j ==> (#[trigger] cols@[jj])@ == loaded_column(
                    text@,
                    delimiter,
                    schema_view(schema.overrides@),
                    jj,
                ),
            forall|jj: int|
                0 <= jj < j ==> (#[trigger] cols@[jj]).well_formed() && cols@[jj].cells@.len()
                    == n_rows && cols@[jj].name@ == hf[jj],
        decreases header@.len() - j,
    {
        let name = &header[j];
        let ghost raws = column_raws(keptv, j as int);
        proof {
            assert(hf[j as int] == header@[j as int]@);
            assert(raws.len() == kept@.len());
            assert forall|i0: int| 0 <= i0 < kept@.len() implies raws[i0] == (
            #[trigger] kept@[i0])@[j as int]@ by {
                assert(keptv[i0] == fields_view(kept@[i0]@));
            }
        }
        let ty = match schema.lookup(name.as_slice()) {
            Some(ty) => ty,
            None => {
                let mut all_int = true;
                let mut i0: usize = 0;
                while i0 < kept.len()
                    invariant
                        i0 <= kept@.len(),
                        w == header@.len(),
                        keptv == rows3_view(kept@),
                        raws == column_raws(keptv, j as int),
                        raws.len() == kept@.len(),
                        j < w,
                        forall|i1: int|
                            0 <= i1 < kept@.len() ==> (#[trigger] kept@[i1])@.len() == w,
                        forall|i1: int|
                            0 <= i1 < kept@.len() ==> raws[i1] == (#[trigger] kept@[i1])@[j as int]@,
                        all_int == all_int_shaped(raws.take(i0 as int)),
                    decreases kept@.len() - i0,
                {
                    let row = &kept[i0];
                    let raw = &row[j];
                    proof {
                        assert(raws.take(i0 + 1).drop_last() =~= raws.take(i0 as int));
                        assert(raws.take(i0 + 1)[i0 as int] == raw@);
                        assert(forall|k1: int|
                            0 <= k1 < i0 ==> raws.take(i0 + 1)[k1] == raws.take(i0 as int)[k1]);
                    }
                    if raw.len() > 0 {
                        if parse_int(raw.as_slice()).is_none() {
                            all_int = false;
                        }
                    }
                    proof {
                        if !all_int_shaped(raws.take(i0 as int)) {
                            let bad = choose|b: int|
                                0 <= b < i0 && !(raws.take(i0 as int)[b].len() == 0 || int_text_wf(
                                    raws.take(i0 as int)[b],
                                ));
                            assert(raws.take(i0 + 1)[bad] == raws.take(i0 as int)[bad]);
                            assert(!all_int_shaped(raws.take(i0 + 1)));
                        }
                    }
                    i0 = i0 + 1;
                }
                proof {
                    assert(raws.take(raws.len() as int) =~= raws);
                }
                if all_int {
                    ColType::Int
                } else {
                    ColType::Text
                }
            },
        };
        proof {
            assert(ty == loaded_col_type(schema_view(schema.overrides@), raws, hf[j as int]));
        }
        let mut cells: Vec<Cell> = Vec::new();
        let mut i0: usize = 0;
        while i0 < kept.len()
            invariant
                i0 <= kept@.len(),
                w == header@.len(),
                keptv == rows3_view(kept@),
                raws == column_raws(keptv, j as int),
                raws.len() == kept@.len(),
                j < w,
                forall|i1: int| 0 <= i1 < kept@.len() ==> (#[trigger] kept@[i1])@.len() == w,
                forall|i1: int|
                    0 <= i1 < kept@.len() ==> raws[i1] == (#[trigger] kept@[i1])@[j as int]@,
                cells@.len() == i0,
                forall|i1: int|
                    0 <= i1 < i0 ==> (#[trigger] cells@[i1])@ == cell_of(ty, raws[i1]),
                forall|i1: int|
                    0 <= i1 < i0 ==> cell_has_type((#[trigger] cells@[i1])@, ty),
            decreases kept@.len() - i0,
        {
            let row = &kept[i0];
            let raw = &row[j];
            let c = match ty {
                ColType::Text => if raw.len() == 0 {
                    Cell::Null
                } else {
                    Cell::Text(dup_bytes(raw.as_slice()))
                },
                ColType::Int => match parse_int(raw.as_slice()) {
                    Some(v) => Cell::Int(v),
                    None => Cell::Null,
                },
                ColType::Date => match parse_date(raw.as_slice()) {
                    Some(d) => Cell::Date(d),
                    None => Cell::Null,
                },
            };
            assert(c@ == cell_of(ty, raws[i0 as int]));
            assert(cell_has_type(c@, ty));
            cells.push(c);
            i0 = i0 + 1;
        }
        let col = Column { name: dup_bytes(name.as_slice()), ty, cells };
        proof {
            assert forall|i1: int| 0 <= i1 < n_rows implies cells_view(col.cells@)[i1] == cells_of(
                ty,
                raws,
            )[i1] by {
                assert(cells_view(col.cells@)[i1] == col.cells@[i1]@);
            }
            assert(cells_view(col.cells@) =~= cells_of(ty, raws));
            assert(col@ == loaded_column(
                text@,
                delimiter,
                schema_view(schema.overrides@),
                j as int,
            ));
        }
        cols.push(col);
        j = j + 1;
    }
    let t = Table { cols };
    proof {
        assert(t.spec_row_count() == n_rows);
        assert(t.well_formed());
        assert forall|jj: int| 0 <= jj < t.cols@.len() implies table_view(t)[jj] == load_view(
            text@,
            delimiter,
            schema_view(schema.overrides@),
        )[jj] by {
            assert(table_view(t)[jj] == t.cols@[jj]@);
        }
        assert(table_view(t) =~= load_view(text@, delimiter, schema_view(schema.overrides@)));
    }
    Ok(t)
}

/// The mathematical values of a vector of rows of byte strings.
pub open spec fn rows3_view(rows: Seq<Vec<Vec<u8>>>) -> Seq<Seq<Seq<u8>>> {
    rows.map_values(|r: Vec<Vec<u8>>| fields_view(r@))
}

} // verus!
