//! The tables that datasets are exported to.
//!
//! A value of a feature is written by the caller; what is written where is decided here.

use vstd::prelude::*;

use crate::float_bits::F32;
use crate::mania::ManiaFeatureRecord;
use crate::text::{push_decimal, push_text, string_of};
use crate::types::BeatmapFeatureRecord;

verus! {

// Lines of fields

/// The fields, each behind a comma.
pub open spec fn comma_fields(fields: Seq<Seq<char>>) -> Seq<char>
    decreases fields.len(),
{
    if fields.len() == 0 {
        seq![]
    } else {
        comma_fields(fields.drop_last()) + seq![','] + fields.last()
    }
}

/// A line of fields, of which there is at least one, with commas between them.
pub open spec fn csv_line(fields: Seq<Seq<char>>) -> Seq<char> {
    fields[0] + comma_fields(fields.skip(1)) + seq!['\n']
}

/// Lines of fields, one after another.
pub open spec fn csv_text(lines: Seq<Seq<Seq<char>>>) -> Seq<char>
    decreases lines.len(),
{
    if lines.len() == 0 {
        seq![]
    } else {
        csv_text(lines.drop_last()) + csv_line(lines.last())
    }
}

fn push_fields(text: &mut Vec<char>, fields: &Vec<String>, from: usize)
    requires
        from <= fields@.len(),
    ensures
        final(text)@ == old(text)@ + comma_fields(
            crate::catalog::texts_of(fields@).skip(from as int),
        ),
{
    let ghost before = text@;
    let ghost all = crate::catalog::texts_of(fields@).skip(from as int);
    let mut i: usize = from;
    assert(all.take(0) =~= seq![]);
    assert(text@ =~= before + comma_fields(all.take(0)));
    while i < fields.len()
        invariant
            from <= i <= fields@.len(),
            all == crate::catalog::texts_of(fields@).skip(from as int),
            text@ == before + comma_fields(all.take(i - from)),
        decreases fields@.len() - i,
    {
        let ghost now = text@;
        text.push(',');
        push_text(text, fields[i].as_str());
        proof {
            let next = all.take(i - from + 1);
            assert(next.drop_last() =~= all.take(i - from));
            assert(next.last() == fields@[i as int]@);
            assert(text@ =~= now + seq![','] + next.last());
            assert(text@ =~= before + comma_fields(next));
        }
        i = i + 1;
    }
    assert(all.take(all.len() as int) =~= all);
}

fn push_line(text: &mut Vec<char>, fields: &Vec<String>)
    requires
        fields@.len() > 0,
    ensures
        final(text)@ == old(text)@ + csv_line(crate::catalog::texts_of(fields@)),
{
    let ghost before = text@;
    push_text(text, fields[0].as_str());
    push_fields(text, fields, 1);
    text.push('\n');
    assert(text@ =~= before + csv_line(crate::catalog::texts_of(fields@)));
}

fn decimal_text(n: u64) -> (text: String)
    ensures
        text@ == crate::text::decimal(n as nat),
{
    let mut chars: Vec<char> = Vec::new();
    push_decimal(&mut chars, n);
    assert(chars@ =~= crate::text::decimal(n as nat));
    string_of(chars.as_slice())
}

/// Adds the other texts behind the texts.
fn append_texts(texts: &mut Vec<String>, others: &Vec<String>, from: usize)
    requires
        from <= others@.len(),
    ensures
        crate::catalog::texts_of(final(texts)@) == crate::catalog::texts_of(old(texts)@)
            + crate::catalog::texts_of(others@).skip(from as int),
{
    let ghost before = crate::catalog::texts_of(texts@);
    let ghost all = crate::catalog::texts_of(others@).skip(from as int);
    let mut i: usize = from;
    assert(crate::catalog::texts_of(texts@) =~= before + all.take(0));
    while i < others.len()
        invariant
            from <= i <= others@.len(),
            all == crate::catalog::texts_of(others@).skip(from as int),
            crate::catalog::texts_of(texts@) == before + all.take(i - from),
        decreases others@.len() - i,
    {
        let ghost now = texts@;
        texts.push(others[i].clone());
        proof {
            assert(crate::catalog::texts_of(texts@) =~= crate::catalog::texts_of(now).push(
                others@[i as int]@,
            ));
            assert(all.take(i - from + 1) =~= all.take(i - from).push(others@[i as int]@));
            assert(crate::catalog::texts_of(texts@) =~= before + all.take(i - from + 1));
        }
        i = i + 1;
    }
    assert(all.take(all.len() as int) =~= all);
}

// Columns

/// What stands in one row of a column.
pub enum Cell {
    Int(i64),
    Byte(u8),
    Number(F32),
}

/// The values of a column, all of one type.
#[derive(Clone, Debug, PartialEq, Eq)]
pub enum ColumnValues {
    Ints(Vec<i64>),
    Bytes(Vec<u8>),
    Numbers(Vec<F32>),
}

impl ColumnValues {
    /// What stands in each row.
    pub open spec fn cells(self) -> Seq<Cell> {
        match self {
            ColumnValues::Ints(values) => Seq::new(values@.len(), |i: int| Cell::Int(values@[i])),
            ColumnValues::Bytes(values) => Seq::new(
                values@.len(),
                |i: int| Cell::Byte(values@[i]),
            ),
            ColumnValues::Numbers(values) => Seq::new(
                values@.len(),
                |i: int| Cell::Number(values@[i]),
            ),
        }
    }
}

/// A column of an exported table.
#[derive(Clone, Debug, PartialEq, Eq)]
pub struct Column {
    pub name: String,
    pub nullable: bool,
    pub values: ColumnValues,
}

// The osu!standard dataset

/// The columns of an exported osu!standard dataset.
pub open spec fn standard_columns() -> Seq<Seq<char>> {
    seq![
        "beatmap_id"@,
        "beatmapset_id"@,
        "aim"@,
        "speed"@,
        "reading"@,
        "slider"@,
        "overlap"@,
        "bpm"@,
        "ar"@,
        "object_density"@,
    ]
}

/// The columns of an exported osu!standard dataset.
pub fn column_names() -> (names: Vec<String>)
    ensures
        crate::catalog::texts_of(names@) == standard_columns(),
{
    let mut names: Vec<String> = Vec::new();
    names.push(String::from_str("beatmap_id"));
    names.push(String::from_str("beatmapset_id"));
    names.push(String::from_str("aim"));
    names.push(String::from_str("speed"));
    names.push(String::from_str("reading"));
    names.push(String::from_str("slider"));
    names.push(String::from_str("overlap"));
    names.push(String::from_str("bpm"));
    names.push(String::from_str("ar"));
    names.push(String::from_str("object_density"));
    assert(crate::catalog::texts_of(names@) =~= standard_columns());
    names
}

/// The features of a record that are exported, in the order of their columns.
pub open spec fn standard_values(record: BeatmapFeatureRecord) -> Seq<F32> {
    record.difficulty.dimensions() + seq![
        record.base.bpm,
        record.base.ar,
        record.base.object_density,
    ]
}

/// The features of a record that are exported, in the order of their columns.
pub fn export_values(record: &BeatmapFeatureRecord) -> (values: [F32; 8])
    ensures
        values@ == standard_values(*record),
{
    let values: [F32; 8] = [
        record.difficulty.aim,
        record.difficulty.speed,
        record.difficulty.reading,
        record.difficulty.slider,
        record.difficulty.overlap,
        record.base.bpm,
        record.base.ar,
        record.base.object_density,
    ];
    assert(values@ =~= standard_values(*record));
    values
}

/// The texts in a table.
pub open spec fn table_texts(rows: Seq<Vec<String>>) -> Seq<Seq<Seq<char>>> {
    Seq::new(rows.len(), |i: int| crate::catalog::texts_of(rows[i]@))
}

/// The fields of a record, whose exported features are written as `values`.
pub open spec fn standard_fields(record: BeatmapFeatureRecord, values: Seq<Seq<char>>) -> Seq<
    Seq<char>,
> {
    seq![
        crate::text::decimal(record.beatmap_id as nat),
        crate::text::decimal(record.beatmapset_id as nat),
    ] + values
}

/// The lines that an osu!standard dataset is exported to: the names of the columns, then one
/// line for each record, whose exported features are written as `values`.
pub open spec fn standard_lines(
    records: Seq<BeatmapFeatureRecord>,
    values: Seq<Seq<Seq<char>>>,
) -> Seq<Seq<Seq<char>>> {
    seq![standard_columns()] + Seq::new(
        records.len(),
        |i: int| standard_fields(records[i], values[i]),
    )
}

/// The text that an osu!standard dataset is exported to, where `values` holds the exported
/// features of each record in writing.
pub fn export_csv(records: &Vec<BeatmapFeatureRecord>, values: &Vec<Vec<String>>) -> (text: String)
    requires
        values@.len() == records@.len(),
    ensures
        text@ == csv_text(standard_lines(records@, table_texts(values@))),
{
    let mut text: Vec<char> = Vec::new();
    let names: Vec<String> = column_names();
    push_line(&mut text, &names);
    let ghost rows = table_texts(values@);
    let ghost lines = standard_lines(records@, rows);
    let mut i: usize = 0;
    proof {
        assert(lines.take(1).drop_last() =~= seq![]);
        assert(csv_text(lines.take(0)) =~= seq![]);
        assert(lines.take(1).drop_last() =~= lines.take(0));
        assert(text@ =~= csv_text(lines.take(1)));
    }
    while i < records.len()
        invariant
            i <= records@.len(),
            values@.len() == records@.len(),
            rows == table_texts(values@),
            lines == standard_lines(records@, rows),
            text@ == csv_text(lines.take(i + 1)),
        decreases records@.len() - i,
    {
        let mut fields: Vec<String> = Vec::new();
        fields.push(decimal_text(records[i].beatmap_id));
        fields.push(decimal_text(records[i].beatmapset_id));
        assert(crate::catalog::texts_of(fields@) =~= seq![
            crate::text::decimal(records@[i as int].beatmap_id as nat),
            crate::text::decimal(records@[i as int].beatmapset_id as nat),
        ]);
        append_texts(&mut fields, &values[i], 0);
        proof {
            let written = crate::catalog::texts_of(values@[i as int]@);
            assert(written.skip(0) =~= written);
            assert(rows[i as int] == written);
            assert(crate::catalog::texts_of(fields@) == lines[i + 1]);
            assert(fields@.len() == crate::catalog::texts_of(fields@).len());
        }
        push_line(&mut text, &fields);
        assert(lines.take(i + 2).drop_last() =~= lines.take(i + 1));
        i = i + 1;
    }
    assert(lines.take(lines.len() as int) =~= lines);
    string_of(text.as_slice())
}

/// What stands in the row of a record, in the column at position `k`.
pub open spec fn standard_cell(record: BeatmapFeatureRecord, k: int) -> Cell {
    if k == 0 {
        Cell::Int(record.beatmap_id as i64)
    } else if k == 1 {
        Cell::Int(record.beatmapset_id as i64)
    } else {
        Cell::Number(standard_values(record)[k - 2])
    }
}

fn standard_values_at(records: &Vec<BeatmapFeatureRecord>, k: usize) -> (values: ColumnValues)
    requires
        k < 10,
    ensures
        values.cells() == Seq::new(records@.len(), |i: int| standard_cell(records@[i], k as int)),
{
    let ghost wanted = Seq::new(records@.len(), |i: int| standard_cell(records@[i], k as int));
    let mut i: usize = 0;
    if k < 2 {
        let mut ints: Vec<i64> = Vec::new();
        while i < records.len()
            invariant
                i <= records@.len(),
                k < 2,
                ints@.len() == i,
                forall|j: int|
                    0 <= j < i ==> Cell::Int(#[trigger] ints@[j]) == standard_cell(
                        records@[j],
                        k as int,
                    ),
            decreases records@.len() - i,
        {
            let id: u64 = if k == 0 {
                records[i].beatmap_id
            } else {
                records[i].beatmapset_id
            };
            ints.push(#[verifier::truncate] (id as i64));
            i = i + 1;
        }
        let values = ColumnValues::Ints(ints);
        assert(values.cells() =~= wanted);
        values
    } else {
        let mut numbers: Vec<F32> = Vec::new();
        while i < records.len()
            invariant
                i <= records@.len(),
                2 <= k < 10,
                numbers@.len() == i,
                forall|j: int|
                    0 <= j < i ==> Cell::Number(#[trigger] numbers@[j]) == standard_cell(
                        records@[j],
                        k as int,
                    ),
            decreases records@.len() - i,
        {
            let exported: [F32; 8] = export_values(&records[i]);
            numbers.push(exported[k - 2]);
            i = i + 1;
        }
        let values = ColumnValues::Numbers(numbers);
        assert(values.cells() =~= wanted);
        values
    }
}

/// Whether `columns` are those of an osu!standard dataset: each under its name, without missing
/// values, and with one row for each record.
pub open spec fn is_standard_table(
    columns: Seq<Column>,
    records: Seq<BeatmapFeatureRecord>,
) -> bool {
    &&& columns.len() == standard_columns().len()
    &&& forall|k: int|
        0 <= k < columns.len() ==> (#[trigger] columns[k]).name@ == standard_columns()[k]
            && !columns[k].nullable && columns[k].values.cells() == Seq::new(
            records.len(),
            |i: int| standard_cell(records[i], k),
        )
}

/// An osu!standard dataset by columns.
pub fn export_parquet(records: &Vec<BeatmapFeatureRecord>) -> (columns: Vec<Column>)
    ensures
        is_standard_table(columns@, records@),
{
    let names: Vec<String> = column_names();
    assert(names@.len() == crate::catalog::texts_of(names@).len());
    let mut columns: Vec<Column> = Vec::new();
    let mut k: usize = 0;
    while k < names.len()
        invariant
            k <= names@.len(),
            names@.len() == 10,
            crate::catalog::texts_of(names@) == standard_columns(),
            columns@.len() == k,
            forall|j: int|
                0 <= j < k ==> (#[trigger] columns@[j]).name@ == standard_columns()[j]
                    && !columns@[j].nullable && columns@[j].values.cells() == Seq::new(
                    records@.len(),
                    |i: int| standard_cell(records@[i], j),
                ),
        decreases names@.len() - k,
    {
        assert(crate::catalog::texts_of(names@)[k as int] == names@[k as int]@);
        columns.push(
            Column {
                name: names[k].clone(),
                nullable: false,
                values: standard_values_at(records, k),
            },
        );
        k = k + 1;
    }
    columns
}

// The osu!mania dataset

/// The columns of an exported osu!mania dataset in front of its vectors.
pub open spec fn mania_leading_columns() -> Seq<Seq<char>> {
    seq![
        "beatmap_id"@,
        "beatmapset_id"@,
        "key_count"@,
        "mode_family"@,
        "dominant_pattern"@,
        "difficulty_percentile"@,
        "difficulty_band"@,
    ]
}

/// The axes of the difficulty vector.
pub open spec fn mania_difficulty_columns() -> Seq<Seq<char>> {
    seq![
        "speed"@,
        "hand_stream"@,
        "jack"@,
        "chordjack"@,
        "technical"@,
        "stamina"@,
        "long_note"@,
        "course"@,
    ]
}

/// The axes of the style vector.
pub open spec fn mania_style_columns() -> Seq<Seq<char>> {
    seq![
        "stream_share"@,
        "chordstream_share"@,
        "jacks_share"@,
        "coordination_share"@,
        "density_share"@,
        "wildcard_share"@,
        "chord_rate"@,
        "large_chord_rate"@,
        "rotation_rate"@,
        "anchor_rate"@,
        "rhythm_entropy"@,
        "transition_entropy"@,
        "ln_note_ratio"@,
        "hold_occupancy"@,
        "hybrid_row_ratio"@,
        "peak_to_sustain_gap"@,
    ]
}

/// The base features.
pub open spec fn mania_base_columns() -> Seq<Seq<char>> {
    seq![
        "bpm"@,
        "length_seconds"@,
        "active_length_seconds"@,
        "note_count"@,
        "row_count"@,
        "avg_nps"@,
        "peak_nps"@,
        "break_density"@,
        "sv_change_rate"@,
    ]
}

/// The columns of an exported osu!mania dataset.
pub open spec fn mania_columns() -> Seq<Seq<char>> {
    mania_leading_columns() + mania_difficulty_columns() + mania_style_columns()
        + mania_base_columns()
}

fn leading_names() -> (names: Vec<String>)
    ensures
        crate::catalog::texts_of(names@) == mania_leading_columns(),
{
    let mut names: Vec<String> = Vec::new();
    names.push(String::from_str("beatmap_id"));
    names.push(String::from_str("beatmapset_id"));
    names.push(String::from_str("key_count"));
    names.push(String::from_str("mode_family"));
    names.push(String::from_str("dominant_pattern"));
    names.push(String::from_str("difficulty_percentile"));
    names.push(String::from_str("difficulty_band"));
    assert(crate::catalog::texts_of(names@) =~= mania_leading_columns());
    names
}

fn difficulty_names() -> (names: Vec<String>)
    ensures
        crate::catalog::texts_of(names@) == mania_difficulty_columns(),
{
    let mut names: Vec<String> = Vec::new();
    names.push(String::from_str("speed"));
    names.push(String::from_str("hand_stream"));
    names.push(String::from_str("jack"));
    names.push(String::from_str("chordjack"));
    names.push(String::from_str("technical"));
    names.push(String::from_str("stamina"));
    names.push(String::from_str("long_note"));
    names.push(String::from_str("course"));
    assert(crate::catalog::texts_of(names@) =~= mania_difficulty_columns());
    names
}

fn style_names() -> (names: Vec<String>)
    ensures
        crate::catalog::texts_of(names@) == mania_style_columns(),
{
    let mut names: Vec<String> = Vec::new();
    names.push(String::from_str("stream_share"));
    names.push(String::from_str("chordstream_share"));
    names.push(String::from_str("jacks_share"));
    names.push(String::from_str("coordination_share"));
    names.push(String::from_str("density_share"));
    names.push(String::from_str("wildcard_share"));
    names.push(String::from_str("chord_rate"));
    names.push(String::from_str("large_chord_rate"));
    names.push(String::from_str("rotation_rate"));
    names.push(String::from_str("anchor_rate"));
    names.push(String::from_str("rhythm_entropy"));
    names.push(String::from_str("transition_entropy"));
    names.push(String::from_str("ln_note_ratio"));
    names.push(String::from_str("hold_occupancy"));
    names.push(String::from_str("hybrid_row_ratio"));
    names.push(String::from_str("peak_to_sustain_gap"));
    assert(crate::catalog::texts_of(names@) =~= mania_style_columns());
    names
}

fn base_names() -> (names: Vec<String>)
    ensures
        crate::catalog::texts_of(names@) == mania_base_columns(),
{
    let mut names: Vec<String> = Vec::new();
    names.push(String::from_str("bpm"));
    names.push(String::from_str("length_seconds"));
    names.push(String::from_str("active_length_seconds"));
    names.push(String::from_str("note_count"));
    names.push(String::from_str("row_count"));
    names.push(String::from_str("avg_nps"));
    names.push(String::from_str("peak_nps"));
    names.push(String::from_str("break_density"));
    names.push(String::from_str("sv_change_rate"));
    assert(crate::catalog::texts_of(names@) =~= mania_base_columns());
    names
}

/// The columns of an exported osu!mania dataset.
pub fn mania_column_names() -> (names: Vec<String>)
    ensures
        crate::catalog::texts_of(names@) == mania_columns(),
{
    let mut names: Vec<String> = leading_names();
    let difficulty: Vec<String> = difficulty_names();
    let style: Vec<String> = style_names();
    let base: Vec<String> = base_names();
    append_texts(&mut names, &difficulty, 0);
    append_texts(&mut names, &style, 0);
    append_texts(&mut names, &base, 0);
    assert(mania_difficulty_columns().skip(0) =~= mania_difficulty_columns());
    assert(mania_style_columns().skip(0) =~= mania_style_columns());
    assert(mania_base_columns().skip(0) =~= mania_base_columns());
    names
}

/// The features of a record that are exported: its percentile, its two vectors and its base
/// features.
pub open spec fn mania_values(record: ManiaFeatureRecord) -> Seq<F32> {
    seq![record.difficulty_percentile] + record.difficulty.axes() + record.style.axes()
        + record.base.columns()
}

/// How many features of a record are exported.
pub const MANIA_VALUES: usize = 34;

fn push_values(values: &mut Vec<F32>, more: &[F32])
    ensures
        final(values)@ == old(values)@ + more@,
{
    let ghost before = values@;
    let count: usize = more.len();
    let mut i: usize = 0;
    assert(values@ =~= before + more@.take(0));
    while i < count
        invariant
            i <= count,
            count == more@.len(),
            values@ == before + more@.take(i as int),
        decreases count - i,
    {
        values.push(more[i]);
        assert(values@ =~= before + more@.take(i + 1));
        i = i + 1;
    }
    assert(more@.take(more@.len() as int) =~= more@);
}

/// The features of a record that are exported, in the order of their columns.
pub fn export_mania_values(record: &ManiaFeatureRecord) -> (values: Vec<F32>)
    ensures
        values@ == mania_values(*record),
        values@.len() == MANIA_VALUES,
{
    let mut values: Vec<F32> = Vec::new();
    values.push(record.difficulty_percentile);
    assert(values@ =~= seq![record.difficulty_percentile]);
    let difficulty: [F32; 8] = record.difficulty.as_array();
    let style: [F32; 16] = record.style.as_array();
    let base: [F32; 9] = record.base.as_array();
    push_values(&mut values, difficulty.as_slice());
    push_values(&mut values, style.as_slice());
    push_values(&mut values, base.as_slice());
    values
}

/// The names of a record's mode family and pattern, and its exported features, in writing.
pub struct ManiaRow {
    pub mode_family: String,
    pub dominant_pattern: String,
    pub values: Vec<String>,
}

/// The fields of a record, written as `row`.
pub open spec fn mania_fields(record: ManiaFeatureRecord, row: ManiaRow) -> Seq<Seq<char>> {
    seq![
        crate::text::decimal(record.beatmap_id as nat),
        crate::text::decimal(record.beatmapset_id as nat),
        crate::text::decimal(record.key_count as nat),
        row.mode_family@,
        row.dominant_pattern@,
        row.values@[0]@,
        crate::text::decimal(record.difficulty_band as nat),
    ] + crate::catalog::texts_of(row.values@).skip(1)
}

/// The lines that an osu!mania dataset is exported to: the names of the columns, then one line
/// for each record, written as `rows`.
pub open spec fn mania_lines(records: Seq<ManiaFeatureRecord>, rows: Seq<ManiaRow>) -> Seq<
    Seq<Seq<char>>,
> {
    seq![mania_columns()] + Seq::new(records.len(), |i: int| mania_fields(records[i], rows[i]))
}

fn mania_row_fields(record: &ManiaFeatureRecord, row: &ManiaRow) -> (fields: Vec<String>)
    requires
        row.values@.len() == MANIA_VALUES,
    ensures
        crate::catalog::texts_of(fields@) == mania_fields(*record, *row),
        fields@.len() > 0,
{
    let mut fields: Vec<String> = Vec::new();
    fields.push(decimal_text(record.beatmap_id));
    fields.push(decimal_text(record.beatmapset_id));
    fields.push(decimal_text(record.key_count as u64));
    fields.push(row.mode_family.clone());
    fields.push(row.dominant_pattern.clone());
    fields.push(row.values[0].clone());
    fields.push(decimal_text(record.difficulty_band as u64));
    assert(crate::catalog::texts_of(fields@) =~= seq![
        crate::text::decimal(record.beatmap_id as nat),
        crate::text::decimal(record.beatmapset_id as nat),
        crate::text::decimal(record.key_count as nat),
        row.mode_family@,
        row.dominant_pattern@,
        row.values@[0]@,
        crate::text::decimal(record.difficulty_band as nat),
    ]);
    append_texts(&mut fields, &row.values, 1);
    assert(fields@.len() == crate::catalog::texts_of(fields@).len());
    fields
}

/// The text that an osu!mania dataset is exported to, where `rows` holds what the caller has
/// written of each record.
pub fn export_mania_csv(records: &Vec<ManiaFeatureRecord>, rows: &Vec<ManiaRow>) -> (text: String)
    requires
        rows@.len() == records@.len(),
        forall|i: int| 0 <= i < rows@.len() ==> (#[trigger] rows@[i]).values@.len() == MANIA_VALUES,
    ensures
        text@ == csv_text(mania_lines(records@, rows@)),
{
    let mut text: Vec<char> = Vec::new();
    let names: Vec<String> = mania_column_names();
    assert(names@.len() == crate::catalog::texts_of(names@).len());
    push_line(&mut text, &names);
    let ghost lines = mania_lines(records@, rows@);
    let mut i: usize = 0;
    proof {
        assert(csv_text(lines.take(0)) =~= seq![]);
        assert(lines.take(1).drop_last() =~= lines.take(0));
        assert(text@ =~= csv_text(lines.take(1)));
    }
    while i < records.len()
        invariant
            i <= records@.len(),
            rows@.len() == records@.len(),
            forall|k: int|
                0 <= k < rows@.len() ==> (#[trigger] rows@[k]).values@.len() == MANIA_VALUES,
            lines == mania_lines(records@, rows@),
            text@ == csv_text(lines.take(i + 1)),
        decreases records@.len() - i,
    {
        let fields: Vec<String> = mania_row_fields(&records[i], &rows[i]);
        push_line(&mut text, &fields);
        assert(crate::catalog::texts_of(fields@) == lines[i + 1]);
        assert(lines.take(i + 2).drop_last() =~= lines.take(i + 1));
        i = i + 1;
    }
    assert(lines.take(lines.len() as int) =~= lines);
    string_of(text.as_slice())
}

/// What stands in the row of a record, in the column at position `k`.
pub open spec fn mania_cell(record: ManiaFeatureRecord, k: int) -> Cell {
    if k == 0 {
        Cell::Int(record.beatmap_id as i64)
    } else if k == 1 {
        Cell::Int(record.beatmapset_id as i64)
    } else if k == 2 {
        Cell::Byte(record.key_count)
    } else if k == 3 {
        Cell::Byte(record.mode_family.code)
    } else if k == 4 {
        Cell::Byte(record.dominant_pattern.code)
    } else if k == 5 {
        Cell::Number(record.difficulty_percentile)
    } else if k == 6 {
        Cell::Byte(record.difficulty_band)
    } else {
        Cell::Number(mania_values(record)[k - 6])
    }
}

fn mania_ints_at(records: &Vec<ManiaFeatureRecord>, k: usize) -> (values: ColumnValues)
    requires
        k < 2,
    ensures
        values.cells() == Seq::new(records@.len(), |i: int| mania_cell(records@[i], k as int)),
{
    let mut ints: Vec<i64> = Vec::new();
    let mut i: usize = 0;
    while i < records.len()
        invariant
            i <= records@.len(),
            k < 2,
            ints@.len() == i,
            forall|j: int|
                0 <= j < i ==> Cell::Int(#[trigger] ints@[j]) == mania_cell(records@[j], k as int),
        decreases records@.len() - i,
    {
        let id: u64 = if k == 0 {
            records[i].beatmap_id
        } else {
            records[i].beatmapset_id
        };
        ints.push(#[verifier::truncate] (id as i64));
        i = i + 1;
    }
    let values = ColumnValues::Ints(ints);
    assert(values.cells() =~= Seq::new(
        records@.len(),
        |i: int| mania_cell(records@[i], k as int),
    ));
    values
}

fn mania_bytes_at(records: &Vec<ManiaFeatureRecord>, k: usize) -> (values: ColumnValues)
    requires
        2 <= k < 5 || k == 6,
    ensures
        values.cells() == Seq::new(records@.len(), |i: int| mania_cell(records@[i], k as int)),
{
    let mut bytes: Vec<u8> = Vec::new();
    let mut i: usize = 0;
    while i < records.len()
        invariant
            i <= records@.len(),
            2 <= k < 5 || k == 6,
            bytes@.len() == i,
            forall|j: int|
                0 <= j < i ==> Cell::Byte(#[trigger] bytes@[j]) == mania_cell(
                    records@[j],
                    k as int,
                ),
        decreases records@.len() - i,
    {
        let byte: u8 = if k == 2 {
            records[i].key_count
        } else if k == 3 {
            records[i].mode_family.code
        } else if k == 4 {
            records[i].dominant_pattern.code
        } else {
            records[i].difficulty_band
        };
        bytes.push(byte);
        i = i + 1;
    }
    let values = ColumnValues::Bytes(bytes);
    assert(values.cells() =~= Seq::new(
        records@.len(),
        |i: int| mania_cell(records@[i], k as int),
    ));
    values
}

fn mania_numbers_at(records: &Vec<ManiaFeatureRecord>, k: usize) -> (values: ColumnValues)
    requires
        k == 5 || 7 <= k < 40,
    ensures
        values.cells() == Seq::new(records@.len(), |i: int| mania_cell(records@[i], k as int)),
{
    let at: usize = if k == 5 {
        0
    } else {
        k - 6
    };
    let mut numbers: Vec<F32> = Vec::new();
    let mut i: usize = 0;
    while i < records.len()
        invariant
            i <= records@.len(),
            k == 5 && at == 0 || 7 <= k < 40 && at == k - 6,
            numbers@.len() == i,
            forall|j: int|
                0 <= j < i ==> Cell::Number(#[trigger] numbers@[j]) == mania_cell(
                    records@[j],
                    k as int,
                ),
        decreases records@.len() - i,
    {
        let exported: Vec<F32> = export_mania_values(&records[i]);
        numbers.push(exported[at]);
        i = i + 1;
    }
    let values = ColumnValues::Numbers(numbers);
    assert(values.cells() =~= Seq::new(
        records@.len(),
        |i: int| mania_cell(records@[i], k as int),
    ));
    values
}

/// Whether `columns` are those of an osu!mania dataset: each under its name, without missing
/// values, and with one row for each record.
pub open spec fn is_mania_table(columns: Seq<Column>, records: Seq<ManiaFeatureRecord>) -> bool {
    &&& columns.len() == mania_columns().len()
    &&& forall|k: int|
        0 <= k < columns.len() ==> (#[trigger] columns[k]).name@ == mania_columns()[k]
            && !columns[k].nullable && columns[k].values.cells() == Seq::new(
            records.len(),
            |i: int| mania_cell(records[i], k),
        )
}

/// An osu!mania dataset by columns.
pub fn export_mania_parquet(records: &Vec<ManiaFeatureRecord>) -> (columns: Vec<Column>)
    ensures
        is_mania_table(columns@, records@),
{
    let names: Vec<String> = mania_column_names();
    assert(names@.len() == crate::catalog::texts_of(names@).len());
    let mut columns: Vec<Column> = Vec::new();
    let mut k: usize = 0;
    while k < names.len()
        invariant
            k <= names@.len(),
            names@.len() == 40,
            crate::catalog::texts_of(names@) == mania_columns(),
            columns@.len() == k,
            forall|j: int|
                0 <= j < k ==> (#[trigger] columns@[j]).name@ == mania_columns()[j]
                    && !columns@[j].nullable && columns@[j].values.cells() == Seq::new(
                    records@.len(),
                    |i: int| mania_cell(records@[i], j),
                ),
        decreases names@.len() - k,
    {
        assert(crate::catalog::texts_of(names@)[k as int] == names@[k as int]@);
        let values: ColumnValues = if k < 2 {
            mania_ints_at(records, k)
        } else if k < 5 || k == 6 {
            mania_bytes_at(records, k)
        } else {
            mania_numbers_at(records, k)
        };
        columns.push(Column { name: names[k].clone(), nullable: false, values });
        k = k + 1;
    }
    columns
}

// What holds of exports

/// Which of the exported features of a record stands in the column at position `k`.
pub open spec fn value_at(k: int) -> int {
    if k == 5 {
        0
    } else {
        k - 6
    }
}

/// Whether `written` is how the field at position `k` of a record is written: whole numbers in
/// decimal digits, names and exported features as in `row`.
pub open spec fn writes(
    record: ManiaFeatureRecord,
    row: ManiaRow,
    k: int,
    written: Seq<char>,
) -> bool {
    if k == 0 {
        written == crate::text::decimal(record.beatmap_id as nat)
    } else if k == 1 {
        written == crate::text::decimal(record.beatmapset_id as nat)
    } else if k == 3 {
        written == row.mode_family@
    } else if k == 4 {
        written == row.dominant_pattern@
    } else {
        match mania_cell(record, k) {
            Cell::Byte(byte) => written == crate::text::decimal(byte as nat),
            Cell::Number(number) => number == mania_values(record)[value_at(k)] && written
                == row.values@[value_at(k)]@,
            Cell::Int(_) => false,
        }
    }
}

/// The two exports of an osu!mania dataset hold the same: the text has one line more than the
/// table has rows, all lines have as many fields as there are columns, forty, the first line
/// holds the names of the columns, and each further line the record of its row, field by field.
/// No column has missing values.
pub proof fn law_mania_exports_agree(
    records: Seq<ManiaFeatureRecord>,
    rows: Seq<ManiaRow>,
    columns: Seq<Column>,
)
    requires
        rows.len() == records.len(),
        forall|i: int| 0 <= i < rows.len() ==> (#[trigger] rows[i]).values@.len() == MANIA_VALUES,
        is_mania_table(columns, records),
    ensures
        columns.len() == 40,
        mania_lines(records, rows).len() == records.len() + 1,
        forall|n: int|
            0 <= n <= records.len() ==> (#[trigger] mania_lines(records, rows)[n]).len() == 40,
        forall|k: int|
            0 <= k < 40 ==> (#[trigger] columns[k]).name@ == mania_lines(records, rows)[0][k]
                && !columns[k].nullable && columns[k].values.cells().len() == records.len(),
        forall|i: int, k: int|
            0 <= i < records.len() && 0 <= k < 40 ==> #[trigger] columns[k].values.cells()[i]
                == mania_cell(records[i], k) && writes(
                records[i],
                rows[i],
                k,
                mania_lines(records, rows)[i + 1][k],
            ),
{
    let lines = mania_lines(records, rows);
    assert(mania_columns().len() == 40);
    assert forall|n: int| 0 <= n <= records.len() implies (#[trigger] lines[n]).len() == 40 by {
        if n > 0 {
            assert(rows[n - 1].values@.len() == MANIA_VALUES);
        }
    }
    assert forall|i: int, k: int|
        0 <= i < records.len() && 0 <= k < 40 implies #[trigger] columns[k].values.cells()[i]
        == mania_cell(records[i], k) && writes(records[i], rows[i], k, lines[i + 1][k]) by {
        assert(columns[k].values.cells()[i] == mania_cell(records[i], k));
        assert(rows[i].values@.len() == MANIA_VALUES);
        let fields = mania_fields(records[i], rows[i]);
        assert(lines[i + 1] == fields);
        if k >= 7 {
            assert(fields[k] == crate::catalog::texts_of(rows[i].values@).skip(1)[k - 7]);
        }
    }
}

/// Whether a text holds neither a comma nor a line feed, so that it can be a field.
pub open spec fn is_field(text: Seq<char>) -> bool {
    forall|i: int| 0 <= i < text.len() ==> #[trigger] text[i] != ',' && text[i] != '\n'
}

/// Whether lines can be told apart, and their fields: no line is empty, and no field holds what
/// stands between fields or lines.
pub open spec fn are_lines(lines: Seq<Seq<Seq<char>>>) -> bool {
    &&& forall|n: int| 0 <= n < lines.len() ==> (#[trigger] lines[n]).len() > 0
    &&& forall|n: int, k: int|
        0 <= n < lines.len() && 0 <= k < lines[n].len() ==> is_field(#[trigger] lines[n][k])
}

/// How often `c` stands in a text.
pub open spec fn occurrences(text: Seq<char>, c: char) -> nat
    decreases text.len(),
{
    if text.len() == 0 {
        0
    } else {
        occurrences(text.drop_last(), c) + if text.last() == c {
            1nat
        } else {
            0nat
        }
    }
}

proof fn lemma_occurrences_add(left: Seq<char>, right: Seq<char>, c: char)
    ensures
        occurrences(left + right, c) == occurrences(left, c) + occurrences(right, c),
    decreases right.len(),
{
    if right.len() == 0 {
        assert(left + right =~= left);
    } else {
        assert((left + right).drop_last() =~= left + right.drop_last());
        lemma_occurrences_add(left, right.drop_last(), c);
    }
}

proof fn lemma_field_occurrences(text: Seq<char>)
    requires
        is_field(text),
    ensures
        occurrences(text, ',') == 0,
        occurrences(text, '\n') == 0,
    decreases text.len(),
{
    if text.len() > 0 {
        let front = text.drop_last();
        assert forall|i: int| 0 <= i < front.len() implies #[trigger] front[i] != ',' && front[i]
            != '\n' by {
            assert(front[i] == text[i]);
        }
        lemma_field_occurrences(front);
        assert(text[text.len() - 1] != ',');
    }
}

proof fn lemma_one_character(c: char, other: char)
    ensures
        occurrences(seq![c], other) == if c == other {
            1nat
        } else {
            0nat
        },
{
    reveal_with_fuel(occurrences, 2);
}

proof fn lemma_comma_fields_occurrences(fields: Seq<Seq<char>>)
    requires
        forall|k: int| 0 <= k < fields.len() ==> is_field(#[trigger] fields[k]),
    ensures
        occurrences(comma_fields(fields), ',') == fields.len(),
        occurrences(comma_fields(fields), '\n') == 0,
    decreases fields.len(),
{
    if fields.len() > 0 {
        let front = fields.drop_last();
        assert forall|k: int| 0 <= k < front.len() implies is_field(#[trigger] front[k]) by {
            assert(is_field(fields[k]));
        }
        lemma_comma_fields_occurrences(front);
        assert(is_field(fields[fields.len() - 1]));
        lemma_field_occurrences(fields.last());
        lemma_one_character(',', ',');
        lemma_one_character(',', '\n');
        let head = comma_fields(front) + seq![','];
        lemma_occurrences_add(comma_fields(front), seq![','], ',');
        lemma_occurrences_add(comma_fields(front), seq![','], '\n');
        lemma_occurrences_add(head, fields.last(), ',');
        lemma_occurrences_add(head, fields.last(), '\n');
    }
}

/// A line of fields ends with its only line feed, and has one comma less than fields.
pub proof fn law_line_has_its_fields(fields: Seq<Seq<char>>)
    requires
        fields.len() > 0,
        forall|k: int| 0 <= k < fields.len() ==> is_field(#[trigger] fields[k]),
    ensures
        csv_line(fields).last() == '\n',
        occurrences(csv_line(fields), '\n') == 1,
        occurrences(csv_line(fields), ',') == fields.len() - 1,
{
    let rest = fields.skip(1);
    assert forall|k: int| 0 <= k < rest.len() implies is_field(#[trigger] rest[k]) by {
        assert(is_field(fields[k + 1]));
    }
    lemma_comma_fields_occurrences(rest);
    lemma_field_occurrences(fields[0]);
    lemma_one_character('\n', '\n');
    lemma_one_character('\n', ',');
    let head = fields[0] + comma_fields(rest);
    lemma_occurrences_add(fields[0], comma_fields(rest), ',');
    lemma_occurrences_add(fields[0], comma_fields(rest), '\n');
    lemma_occurrences_add(head, seq!['\n'], ',');
    lemma_occurrences_add(head, seq!['\n'], '\n');
}

/// A text has as many line feeds as lines.
pub proof fn law_text_has_its_lines(lines: Seq<Seq<Seq<char>>>)
    requires
        are_lines(lines),
    ensures
        occurrences(csv_text(lines), '\n') == lines.len(),
    decreases lines.len(),
{
    if lines.len() > 0 {
        let front = lines.drop_last();
        let last = lines[lines.len() - 1];
        assert(are_lines(front)) by {
            assert forall|n: int| 0 <= n < front.len() implies (#[trigger] front[n]).len() > 0 by {
                assert(lines[n].len() > 0);
            }
            assert forall|n: int, k: int|
                0 <= n < front.len() && 0 <= k < front[n].len() implies is_field(
                #[trigger] front[n][k],
            ) by {
                assert(is_field(lines[n][k]));
            }
        }
        law_text_has_its_lines(front);
        assert forall|k: int| 0 <= k < last.len() implies is_field(#[trigger] last[k]) by {
            assert(is_field(lines[lines.len() - 1][k]));
        }
        law_line_has_its_fields(last);
        lemma_occurrences_add(csv_text(front), csv_line(last), '\n');
    }
}

proof fn lemma_decimal_is_field(n: nat)
    ensures
        is_field(crate::text::decimal(n)),
    decreases n,
{
    if n >= 10 {
        lemma_decimal_is_field(n / 10);
    }
}

proof fn lemma_leading_names_are_fields()
    ensures
        forall|k: int|
            0 <= k < mania_leading_columns().len() ==> is_field(
                #[trigger] mania_leading_columns()[k],
            ),
{
    reveal_strlit("beatmap_id");
    reveal_strlit("beatmapset_id");
    reveal_strlit("key_count");
    reveal_strlit("mode_family");
    reveal_strlit("dominant_pattern");
    reveal_strlit("difficulty_percentile");
    reveal_strlit("difficulty_band");
    assert(is_field("beatmap_id"@));
    assert(is_field("beatmapset_id"@));
    assert(is_field("key_count"@));
    assert(is_field("mode_family"@));
    assert(is_field("dominant_pattern"@));
    assert(is_field("difficulty_percentile"@));
    assert(is_field("difficulty_band"@));
}

proof fn lemma_difficulty_names_are_fields()
    ensures
        forall|k: int|
            0 <= k < mania_difficulty_columns().len() ==> is_field(
                #[trigger] mania_difficulty_columns()[k],
            ),
{
    reveal_strlit("speed");
    reveal_strlit("hand_stream");
    reveal_strlit("jack");
    reveal_strlit("chordjack");
    reveal_strlit("technical");
    reveal_strlit("stamina");
    reveal_strlit("long_note");
    reveal_strlit("course");
    assert(is_field("speed"@));
    assert(is_field("hand_stream"@));
    assert(is_field("jack"@));
    assert(is_field("chordjack"@));
    assert(is_field("technical"@));
    assert(is_field("stamina"@));
    assert(is_field("long_note"@));
    assert(is_field("course"@));
}

proof fn lemma_style_names_are_fields()
    ensures
        forall|k: int|
            0 <= k < mania_style_columns().len() ==> is_field(#[trigger] mania_style_columns()[k]),
{
    reveal_strlit("stream_share");
    reveal_strlit("chordstream_share");
    reveal_strlit("jacks_share");
    reveal_strlit("coordination_share");
    reveal_strlit("density_share");
    reveal_strlit("wildcard_share");
    reveal_strlit("chord_rate");
    reveal_strlit("large_chord_rate");
    reveal_strlit("rotation_rate");
    reveal_strlit("anchor_rate");
    reveal_strlit("rhythm_entropy");
    reveal_strlit("transition_entropy");
    reveal_strlit("ln_note_ratio");
    reveal_strlit("hold_occupancy");
    reveal_strlit("hybrid_row_ratio");
    reveal_strlit("peak_to_sustain_gap");
    assert(is_field("stream_share"@));
    assert(is_field("chordstream_share"@));
    assert(is_field("jacks_share"@));
    assert(is_field("coordination_share"@));
    assert(is_field("density_share"@));
    assert(is_field("wildcard_share"@));
    assert(is_field("chord_rate"@));
    assert(is_field("large_chord_rate"@));
    assert(is_field("rotation_rate"@));
    assert(is_field("anchor_rate"@));
    assert(is_field("rhythm_entropy"@));
    assert(is_field("transition_entropy"@));
    assert(is_field("ln_note_ratio"@));
    assert(is_field("hold_occupancy"@));
    assert(is_field("hybrid_row_ratio"@));
    assert(is_field("peak_to_sustain_gap"@));
}

proof fn lemma_base_names_are_fields()
    ensures
        forall|k: int|
            0 <= k < mania_base_columns().len() ==> is_field(#[trigger] mania_base_columns()[k]),
{
    reveal_strlit("bpm");
    reveal_strlit("length_seconds");
    reveal_strlit("active_length_seconds");
    reveal_strlit("note_count");
    reveal_strlit("row_count");
    reveal_strlit("avg_nps");
    reveal_strlit("peak_nps");
    reveal_strlit("break_density");
    reveal_strlit("sv_change_rate");
    assert(is_field("bpm"@));
    assert(is_field("length_seconds"@));
    assert(is_field("active_length_seconds"@));
    assert(is_field("note_count"@));
    assert(is_field("row_count"@));
    assert(is_field("avg_nps"@));
    assert(is_field("peak_nps"@));
    assert(is_field("break_density"@));
    assert(is_field("sv_change_rate"@));
}

/// The text of an osu!mania dataset has one line more than there are records, each with forty
/// fields, if what the caller has written holds neither commas nor line feeds.
pub proof fn law_mania_text_has_its_lines(records: Seq<ManiaFeatureRecord>, rows: Seq<ManiaRow>)
    requires
        rows.len() == records.len(),
        forall|i: int|
            0 <= i < rows.len() ==> (#[trigger] rows[i]).values@.len() == MANIA_VALUES && is_field(
                rows[i].mode_family@,
            ) && is_field(rows[i].dominant_pattern@),
        forall|i: int, v: int|
            0 <= i < rows.len() && 0 <= v < MANIA_VALUES ==> is_field(
                (#[trigger] rows[i].values@[v])@,
            ),
    ensures
        occurrences(csv_text(mania_lines(records, rows)), '\n') == records.len() + 1,
        forall|n: int|
            0 <= n <= records.len() ==> occurrences(
                csv_line(#[trigger] mania_lines(records, rows)[n]),
                ',',
            ) == 39,
{
    let lines = mania_lines(records, rows);
    assert forall|n: int, k: int|
        0 <= n < lines.len() && 0 <= k < lines[n].len() implies lines[n].len() == 40 && is_field(
        #[trigger] lines[n][k],
    ) by {
        if n == 0 {
            lemma_mania_names_are_fields(k);
        } else {
            lemma_mania_fields_are_fields(records[n - 1], rows[n - 1], k);
        }
    }
    assert forall|n: int| 0 <= n < lines.len() implies (#[trigger] lines[n]).len() == 40 by {
        if n > 0 {
            assert(rows[n - 1].values@.len() == MANIA_VALUES);
        }
    }
    law_text_has_its_lines(lines);
    assert forall|n: int| 0 <= n <= records.len() implies occurrences(
        csv_line(#[trigger] lines[n]),
        ',',
    ) == 39 by {
        law_line_has_its_fields(lines[n]);
    }
}

proof fn lemma_mania_names_are_fields(k: int)
    requires
        0 <= k < 40,
    ensures
        is_field(mania_columns()[k]),
{
    lemma_leading_names_are_fields();
    lemma_difficulty_names_are_fields();
    lemma_style_names_are_fields();
    lemma_base_names_are_fields();
    if k < 7 {
        assert(mania_columns()[k] == mania_leading_columns()[k]);
    } else if k < 15 {
        assert(mania_columns()[k] == mania_difficulty_columns()[k - 7]);
    } else if k < 31 {
        assert(mania_columns()[k] == mania_style_columns()[k - 15]);
    } else {
        assert(mania_columns()[k] == mania_base_columns()[k - 31]);
    }
}

proof fn lemma_mania_fields_are_fields(record: ManiaFeatureRecord, row: ManiaRow, k: int)
    requires
        row.values@.len() == MANIA_VALUES,
        is_field(row.mode_family@),
        is_field(row.dominant_pattern@),
        forall|v: int| 0 <= v < MANIA_VALUES ==> is_field((#[trigger] row.values@[v])@),
        0 <= k < 40,
    ensures
        mania_fields(record, row).len() == 40,
        is_field(mania_fields(record, row)[k]),
{
    lemma_decimal_is_field(record.beatmap_id as nat);
    lemma_decimal_is_field(record.beatmapset_id as nat);
    lemma_decimal_is_field(record.key_count as nat);
    lemma_decimal_is_field(record.difficulty_band as nat);
    assert(is_field(row.values@[0]@));
    if k >= 7 {
        assert(mania_fields(record, row)[k] == crate::catalog::texts_of(row.values@).skip(1)[k
            - 7]);
        assert(is_field(row.values@[k - 6]@));
    }
}

/// Every line of an exported osu!mania dataset has as many fields as there are columns, if the
/// exported features of its record are all written.
pub proof fn law_mania_lines_fill_the_columns(record: ManiaFeatureRecord, row: ManiaRow)
    requires
        row.values@.len() == mania_values(record).len(),
    ensures
        mania_fields(record, row).len() == mania_columns().len(),
        mania_columns().len() == 40,
{
}

/// Every line of an exported osu!standard dataset has as many fields as there are columns, if the
/// exported features of its record are all written.
pub proof fn law_standard_lines_fill_the_columns(
    record: BeatmapFeatureRecord,
    values: Seq<Seq<char>>,
)
    requires
        values.len() == standard_values(record).len(),
    ensures
        standard_fields(record, values).len() == standard_columns().len(),
        standard_columns().len() == 10,
{
}

/// Every column of an exported osu!standard dataset holds, of each record and in order, the feature
/// that it is named after.
pub proof fn law_standard_columns_hold_their_features(columns: Seq<Column>, records: Seq<BeatmapFeatureRecord>, i: int)
    requires
        is_standard_table(columns, records),
        0 <= i < records.len(),
    ensures
        columns.len() == 10,
        forall|k: int|
            0 <= k < columns.len() ==> (#[trigger] columns[k]).values.cells().len()
                == records.len(),
        columns[0].name@ == "beatmap_id"@,
        columns[0].values.cells()[i] == Cell::Int(records[i].beatmap_id as i64),
        columns[1].name@ == "beatmapset_id"@,
        columns[1].values.cells()[i] == Cell::Int(records[i].beatmapset_id as i64),
        columns[2].name@ == "aim"@,
        columns[2].values.cells()[i] == Cell::Number(records[i].difficulty.aim),
        columns[3].name@ == "speed"@,
        columns[3].values.cells()[i] == Cell::Number(records[i].difficulty.speed),
        columns[4].name@ == "reading"@,
        columns[4].values.cells()[i] == Cell::Number(records[i].difficulty.reading),
        columns[5].name@ == "slider"@,
        columns[5].values.cells()[i] == Cell::Number(records[i].difficulty.slider),
        columns[6].name@ == "overlap"@,
        columns[6].values.cells()[i] == Cell::Number(records[i].difficulty.overlap),
        columns[7].name@ == "bpm"@,
        columns[7].values.cells()[i] == Cell::Number(records[i].base.bpm),
        columns[8].name@ == "ar"@,
        columns[8].values.cells()[i] == Cell::Number(records[i].base.ar),
        columns[9].name@ == "object_density"@,
        columns[9].values.cells()[i] == Cell::Number(records[i].base.object_density),
{
    assert(columns[0].values.cells()[i] == standard_cell(records[i], 0));
    assert(columns[1].values.cells()[i] == standard_cell(records[i], 1));
    assert(columns[2].values.cells()[i] == standard_cell(records[i], 2));
    assert(columns[3].values.cells()[i] == standard_cell(records[i], 3));
    assert(columns[4].values.cells()[i] == standard_cell(records[i], 4));
    assert(columns[5].values.cells()[i] == standard_cell(records[i], 5));
    assert(columns[6].values.cells()[i] == standard_cell(records[i], 6));
    assert(columns[7].values.cells()[i] == standard_cell(records[i], 7));
    assert(columns[8].values.cells()[i] == standard_cell(records[i], 8));
    assert(columns[9].values.cells()[i] == standard_cell(records[i], 9));
}

/// Every column of an exported osu!mania dataset holds, of each record and in order, the feature
/// that it is named after.
pub proof fn law_mania_columns_hold_their_features(columns: Seq<Column>, records: Seq<ManiaFeatureRecord>, i: int)
    requires
        is_mania_table(columns, records),
        0 <= i < records.len(),
    ensures
        columns.len() == 40,
        forall|k: int|
            0 <= k < columns.len() ==> (#[trigger] columns[k]).values.cells().len()
                == records.len(),
        columns[0].name@ == "beatmap_id"@,
        columns[0].values.cells()[i] == Cell::Int(records[i].beatmap_id as i64),
        columns[1].name@ == "beatmapset_id"@,
        columns[1].values.cells()[i] == Cell::Int(records[i].beatmapset_id as i64),
        columns[2].name@ == "key_count"@,
        columns[2].values.cells()[i] == Cell::Byte(records[i].key_count),
        columns[3].name@ == "mode_family"@,
        columns[3].values.cells()[i] == Cell::Byte(records[i].mode_family.code),
        columns[4].name@ == "dominant_pattern"@,
        columns[4].values.cells()[i] == Cell::Byte(records[i].dominant_pattern.code),
        columns[5].name@ == "difficulty_percentile"@,
        columns[5].values.cells()[i] == Cell::Number(records[i].difficulty_percentile),
        columns[6].name@ == "difficulty_band"@,
        columns[6].values.cells()[i] == Cell::Byte(records[i].difficulty_band),
        columns[7].name@ == "speed"@,
        columns[7].values.cells()[i] == Cell::Number(records[i].difficulty.speed),
        columns[8].name@ == "hand_stream"@,
        columns[8].values.cells()[i] == Cell::Number(records[i].difficulty.hand_stream),
        columns[9].name@ == "jack"@,
        columns[9].values.cells()[i] == Cell::Number(records[i].difficulty.jack),
        columns[10].name@ == "chordjack"@,
        columns[10].values.cells()[i] == Cell::Number(records[i].difficulty.chordjack),
        columns[11].name@ == "technical"@,
        columns[11].values.cells()[i] == Cell::Number(records[i].difficulty.technical),
        columns[12].name@ == "stamina"@,
        columns[12].values.cells()[i] == Cell::Number(records[i].difficulty.stamina),
        columns[13].name@ == "long_note"@,
        columns[13].values.cells()[i] == Cell::Number(records[i].difficulty.long_note),
        columns[14].name@ == "course"@,
        columns[14].values.cells()[i] == Cell::Number(records[i].difficulty.course),
        columns[15].name@ == "stream_share"@,
        columns[15].values.cells()[i] == Cell::Number(records[i].style.stream),
        columns[16].name@ == "chordstream_share"@,
        columns[16].values.cells()[i] == Cell::Number(records[i].style.chordstream),
        columns[17].name@ == "jacks_share"@,
        columns[17].values.cells()[i] == Cell::Number(records[i].style.jacks),
        columns[18].name@ == "coordination_share"@,
        columns[18].values.cells()[i] == Cell::Number(records[i].style.coordination),
        columns[19].name@ == "density_share"@,
        columns[19].values.cells()[i] == Cell::Number(records[i].style.density),
        columns[20].name@ == "wildcard_share"@,
        columns[20].values.cells()[i] == Cell::Number(records[i].style.wildcard),
        columns[21].name@ == "chord_rate"@,
        columns[21].values.cells()[i] == Cell::Number(records[i].style.chord_rate),
        columns[22].name@ == "large_chord_rate"@,
        columns[22].values.cells()[i] == Cell::Number(records[i].style.large_chord_rate),
        columns[23].name@ == "rotation_rate"@,
        columns[23].values.cells()[i] == Cell::Number(records[i].style.rotation_rate),
        columns[24].name@ == "anchor_rate"@,
        columns[24].values.cells()[i] == Cell::Number(records[i].style.anchor_rate),
        columns[25].name@ == "rhythm_entropy"@,
        columns[25].values.cells()[i] == Cell::Number(records[i].style.rhythm_entropy),
        columns[26].name@ == "transition_entropy"@,
        columns[26].values.cells()[i] == Cell::Number(records[i].style.transition_entropy),
        columns[27].name@ == "ln_note_ratio"@,
        columns[27].values.cells()[i] == Cell::Number(records[i].style.ln_note_ratio),
        columns[28].name@ == "hold_occupancy"@,
        columns[28].values.cells()[i] == Cell::Number(records[i].style.hold_occupancy),
        columns[29].name@ == "hybrid_row_ratio"@,
        columns[29].values.cells()[i] == Cell::Number(records[i].style.hybrid_row_ratio),
        columns[30].name@ == "peak_to_sustain_gap"@,
        columns[30].values.cells()[i] == Cell::Number(records[i].style.peak_to_sustain_gap),
        columns[31].name@ == "bpm"@,
        columns[31].values.cells()[i] == Cell::Number(records[i].base.bpm),
        columns[32].name@ == "length_seconds"@,
        columns[32].values.cells()[i] == Cell::Number(records[i].base.length_seconds),
        columns[33].name@ == "active_length_seconds"@,
        columns[33].values.cells()[i] == Cell::Number(records[i].base.active_length_seconds),
        columns[34].name@ == "note_count"@,
        columns[34].values.cells()[i] == Cell::Number(records[i].base.note_count),
        columns[35].name@ == "row_count"@,
        columns[35].values.cells()[i] == Cell::Number(records[i].base.row_count),
        columns[36].name@ == "avg_nps"@,
        columns[36].values.cells()[i] == Cell::Number(records[i].base.avg_nps),
        columns[37].name@ == "peak_nps"@,
        columns[37].values.cells()[i] == Cell::Number(records[i].base.peak_nps),
        columns[38].name@ == "break_density"@,
        columns[38].values.cells()[i] == Cell::Number(records[i].base.break_density),
        columns[39].name@ == "sv_change_rate"@,
        columns[39].values.cells()[i] == Cell::Number(records[i].base.sv_change_rate),
{
    assert(columns[0].values.cells()[i] == mania_cell(records[i], 0));
    assert(columns[1].values.cells()[i] == mania_cell(records[i], 1));
    assert(columns[2].values.cells()[i] == mania_cell(records[i], 2));
    assert(columns[3].values.cells()[i] == mania_cell(records[i], 3));
    assert(columns[4].values.cells()[i] == mania_cell(records[i], 4));
    assert(columns[5].values.cells()[i] == mania_cell(records[i], 5));
    assert(columns[6].values.cells()[i] == mania_cell(records[i], 6));
    assert(columns[7].values.cells()[i] == mania_cell(records[i], 7));
    assert(columns[8].values.cells()[i] == mania_cell(records[i], 8));
    assert(columns[9].values.cells()[i] == mania_cell(records[i], 9));
    assert(columns[10].values.cells()[i] == mania_cell(records[i], 10));
    assert(columns[11].values.cells()[i] == mania_cell(records[i], 11));
    assert(columns[12].values.cells()[i] == mania_cell(records[i], 12));
    assert(columns[13].values.cells()[i] == mania_cell(records[i], 13));
    assert(columns[14].values.cells()[i] == mania_cell(records[i], 14));
    assert(columns[15].values.cells()[i] == mania_cell(records[i], 15));
    assert(columns[16].values.cells()[i] == mania_cell(records[i], 16));
    assert(columns[17].values.cells()[i] == mania_cell(records[i], 17));
    assert(columns[18].values.cells()[i] == mania_cell(records[i], 18));
    assert(columns[19].values.cells()[i] == mania_cell(records[i], 19));
    assert(columns[20].values.cells()[i] == mania_cell(records[i], 20));
    assert(columns[21].values.cells()[i] == mania_cell(records[i], 21));
    assert(columns[22].values.cells()[i] == mania_cell(records[i], 22));
    assert(columns[23].values.cells()[i] == mania_cell(records[i], 23));
    assert(columns[24].values.cells()[i] == mania_cell(records[i], 24));
    assert(columns[25].values.cells()[i] == mania_cell(records[i], 25));
    assert(columns[26].values.cells()[i] == mania_cell(records[i], 26));
    assert(columns[27].values.cells()[i] == mania_cell(records[i], 27));
    assert(columns[28].values.cells()[i] == mania_cell(records[i], 28));
    assert(columns[29].values.cells()[i] == mania_cell(records[i], 29));
    assert(columns[30].values.cells()[i] == mania_cell(records[i], 30));
    assert(columns[31].values.cells()[i] == mania_cell(records[i], 31));
    assert(columns[32].values.cells()[i] == mania_cell(records[i], 32));
    assert(columns[33].values.cells()[i] == mania_cell(records[i], 33));
    assert(columns[34].values.cells()[i] == mania_cell(records[i], 34));
    assert(columns[35].values.cells()[i] == mania_cell(records[i], 35));
    assert(columns[36].values.cells()[i] == mania_cell(records[i], 36));
    assert(columns[37].values.cells()[i] == mania_cell(records[i], 37));
    assert(columns[38].values.cells()[i] == mania_cell(records[i], 38));
    assert(columns[39].values.cells()[i] == mania_cell(records[i], 39));
}

/// A line puts its fields behind each other with a comma between any two of them and a line feed
/// at the end, and a text puts its lines behind each other.
pub proof fn law_lines_join_their_fields(
    fields: Seq<Seq<char>>,
    field: Seq<char>,
    lines: Seq<Seq<Seq<char>>>,
)
    requires
        fields.len() > 0,
    ensures
        csv_line(seq![field]) == field + seq!['\n'],
        csv_line(fields.push(field)) == csv_line(fields).drop_last() + seq![','] + field + seq![
            '\n',
        ],
        csv_text(Seq::<Seq<Seq<char>>>::empty()) == Seq::<char>::empty(),
        csv_text(lines.push(fields)) == csv_text(lines) + csv_line(fields),
{
    assert(seq![field].skip(1) =~= Seq::<Seq<char>>::empty());
    assert(csv_line(seq![field]) =~= field + seq!['\n']);
    let more = fields.push(field);
    assert(more.skip(1) =~= fields.skip(1).push(field));
    assert(fields.skip(1).push(field).drop_last() =~= fields.skip(1));
    assert(more[0] == fields[0]);
    assert(csv_line(more) =~= csv_line(fields).drop_last() + seq![','] + field + seq!['\n']);
    assert(lines.push(fields).drop_last() =~= lines);
}

/// The lines of an exported osu!standard dataset: the names of the columns first, and of each
/// record its identifiers and then its features as they are written, in the order of the names.
pub proof fn law_standard_lines(
    records: Seq<BeatmapFeatureRecord>,
    values: Seq<Seq<Seq<char>>>,
    i: int,
    k: int,
)
    requires
        values.len() == records.len(),
        0 <= i < records.len(),
        0 <= k < values[i].len(),
    ensures
        standard_lines(records, values).len() == records.len() + 1,
        standard_lines(records, values)[0] == standard_columns(),
        standard_lines(records, values)[i + 1][0] == crate::text::decimal(
            records[i].beatmap_id as nat,
        ),
        standard_lines(records, values)[i + 1][1] == crate::text::decimal(
            records[i].beatmapset_id as nat,
        ),
        standard_lines(records, values)[i + 1][k + 2] == values[i][k],
        standard_values(records[i]) == seq![
            records[i].difficulty.aim,
            records[i].difficulty.speed,
            records[i].difficulty.reading,
            records[i].difficulty.slider,
            records[i].difficulty.overlap,
            records[i].base.bpm,
            records[i].base.ar,
            records[i].base.object_density,
        ],
{
    assert(standard_lines(records, values)[i + 1] == standard_fields(records[i], values[i]));
    assert(standard_values(records[i]) =~= seq![
        records[i].difficulty.aim,
        records[i].difficulty.speed,
        records[i].difficulty.reading,
        records[i].difficulty.slider,
        records[i].difficulty.overlap,
        records[i].base.bpm,
        records[i].base.ar,
        records[i].base.object_density,
    ]);
}

/// The lines of an exported osu!mania dataset: the names of the columns first, and of each record
/// its identifiers, key count, family, pattern, percentile and band, and then its other features
/// as they are written.
pub proof fn law_mania_lines(
    records: Seq<ManiaFeatureRecord>,
    rows: Seq<ManiaRow>,
    i: int,
    k: int,
)
    requires
        rows.len() == records.len(),
        0 <= i < records.len(),
        1 <= k < rows[i].values@.len(),
    ensures
        mania_lines(records, rows).len() == records.len() + 1,
        mania_lines(records, rows)[0] == mania_columns(),
        ({
            let line = mania_lines(records, rows)[i + 1];
            &&& line[0] == crate::text::decimal(records[i].beatmap_id as nat)
            &&& line[1] == crate::text::decimal(records[i].beatmapset_id as nat)
            &&& line[2] == crate::text::decimal(records[i].key_count as nat)
            &&& line[3] == rows[i].mode_family@
            &&& line[4] == rows[i].dominant_pattern@
            &&& line[5] == rows[i].values@[0]@
            &&& line[6] == crate::text::decimal(records[i].difficulty_band as nat)
            &&& line[k + 6] == rows[i].values@[k]@
        }),
        mania_values(records[i])[0] == records[i].difficulty_percentile,
        mania_values(records[i]).subrange(1, 9) == records[i].difficulty.axes(),
        mania_values(records[i]).subrange(9, 25) == records[i].style.axes(),
        mania_values(records[i]).subrange(25, 34) == records[i].base.columns(),
{
    let line = mania_lines(records, rows)[i + 1];
    assert(line == mania_fields(records[i], rows[i]));
    let texts = crate::catalog::texts_of(rows[i].values@);
    assert(texts.skip(1)[k - 1] == texts[k]);
    let values = mania_values(records[i]);
    assert(values.subrange(1, 9) =~= records[i].difficulty.axes());
    assert(values.subrange(9, 25) =~= records[i].style.axes());
    assert(values.subrange(25, 34) =~= records[i].base.columns());
}

/// The texts of a table are those of its fields, row by row.
pub proof fn law_tables_hold_their_fields(rows: Seq<Vec<String>>, i: int, j: int)
    requires
        0 <= i < rows.len(),
        0 <= j < rows[i]@.len(),
    ensures
        table_texts(rows).len() == rows.len(),
        table_texts(rows)[i].len() == rows[i]@.len(),
        table_texts(rows)[i][j] == rows[i]@[j]@,
{
}

} // verus!
