//! The binary format of feature files: a header, then records of a fixed size.

use vstd::prelude::*;
use vstd::slice::slice_subrange;

use crate::float_bits::F32;
use crate::types::{
    BaseFeatures, BeatmapFeatureRecord, DifficultyVector, OverlapStatistics, RawFeatureRecord,
};

verus! {

/// How many bytes stand before the first record of a feature file.
pub const HEADER_LEN: u64 = 32;

/// How many bytes a normalized record takes.
pub const NORMALIZED_RECORD_SIZE: u64 = 124;

/// How many bytes a raw record takes.
pub const RAW_RECORD_SIZE: u64 = 116;

/// The bits of the features of a record, in the order in which they are stored.
pub open spec fn feature_words(
    difficulty: DifficultyVector,
    base: BaseFeatures,
    overlap: OverlapStatistics,
) -> Seq<u32> {
    seq![
        difficulty.aim.bits,
        difficulty.speed.bits,
        difficulty.reading.bits,
        difficulty.slider.bits,
        difficulty.overlap.bits,
        base.bpm.bits,
        base.ar.bits,
        base.od.bits,
        base.cs.bits,
        base.hp.bits,
        base.length_seconds.bits,
        base.object_count.bits,
        base.object_density.bits,
        base.circle_ratio.bits,
        base.slider_ratio.bits,
        base.spinner_ratio.bits,
        base.max_combo.bits,
        overlap.peak.bits,
        overlap.p95.bits,
        overlap.sustained_ratio.bits,
        overlap.stack_rate.bits,
        overlap.slider_occlusion_rate.bits,
        overlap.path_crossing_rate.bits,
    ]
}

/// Two identifiers and two runs of words, one after another.
pub open spec fn layout(
    beatmap_id: u64,
    beatmapset_id: u64,
    features: Seq<u32>,
    versions: Seq<u32>,
) -> Seq<u8> {
    crate::bytes::le_bytes(beatmap_id as nat, 8) + crate::bytes::le_bytes(beatmapset_id as nat, 8)
        + crate::bytes::words_bytes(features) + crate::bytes::words_bytes(versions)
}

/// The bytes of a normalized record.
pub open spec fn normalized_bytes(record: BeatmapFeatureRecord) -> Seq<u8> {
    layout(
        record.beatmap_id,
        record.beatmapset_id,
        feature_words(record.difficulty, record.base, record.overlap),
        seq![
            record.analyzer_version,
            record.normalization_version,
            record.mod_profile,
            record.flags,
        ],
    )
}

/// The bytes of a raw record.
pub open spec fn raw_bytes(record: RawFeatureRecord) -> Seq<u8> {
    layout(
        record.beatmap_id,
        record.beatmapset_id,
        feature_words(record.raw_difficulty, record.base, record.overlap),
        seq![record.analyzer_version, record.mod_profile],
    )
}

/// The error of the `bincode` crate.
#[verifier::external_type_specification]
#[verifier::external_body]
pub struct ExBincodeError(bincode::ErrorKind);

/// `bincode::serialize` of plain values writes them one after another, each integer in its
/// own number of bytes with the least significant one first, and nothing between them. Into
/// a vector of bytes and without a size limit it never fails on them.
#[verifier::external_body]
fn serialize_normalized(
    beatmap_id: u64,
    beatmapset_id: u64,
    features: [u32; 23],
    versions: [u32; 4],
) -> (bytes: Result<Vec<u8>, Box<bincode::ErrorKind>>)
    ensures
        bytes matches Ok(bytes) && bytes@ == layout(
            beatmap_id,
            beatmapset_id,
            features@,
            versions@,
        ),
{
    bincode::serialize(&(beatmap_id, beatmapset_id, features, versions))
}

/// `bincode::serialize`, as in `serialize_normalized`, of the fields of a raw record.
#[verifier::external_body]
fn serialize_raw(
    beatmap_id: u64,
    beatmapset_id: u64,
    features: [u32; 23],
    versions: [u32; 2],
) -> (bytes: Result<Vec<u8>, Box<bincode::ErrorKind>>)
    ensures
        bytes matches Ok(bytes) && bytes@ == layout(
            beatmap_id,
            beatmapset_id,
            features@,
            versions@,
        ),
{
    bincode::serialize(&(beatmap_id, beatmapset_id, features, versions))
}

/// `bincode::deserialize` of plain values reads what `bincode::serialize` writes for them. It
/// fails exactly when there are too few bytes, and leaves bytes behind the values alone.
#[verifier::external_body]
fn deserialize_normalized(bytes: &[u8]) -> (fields: Result<
    (u64, u64, [u32; 23], [u32; 4]),
    Box<bincode::ErrorKind>,
>)
    ensures
        match fields {
            Ok(fields) => bytes@.len() >= 124 && bytes@.take(124) == layout(
                fields.0,
                fields.1,
                fields.2@,
                fields.3@,
            ),
            Err(_) => bytes@.len() < 124,
        },
{
    bincode::deserialize(bytes)
}

/// `bincode::deserialize`, as in `deserialize_normalized`, of the fields of a raw record.
#[verifier::external_body]
fn deserialize_raw(bytes: &[u8]) -> (fields: Result<
    (u64, u64, [u32; 23], [u32; 2]),
    Box<bincode::ErrorKind>,
>)
    ensures
        match fields {
            Ok(fields) => bytes@.len() >= 116 && bytes@.take(116) == layout(
                fields.0,
                fields.1,
                fields.2@,
                fields.3@,
            ),
            Err(_) => bytes@.len() < 116,
        },
{
    bincode::deserialize(bytes)
}

fn words_of(
    difficulty: &DifficultyVector,
    base: &BaseFeatures,
    overlap: &OverlapStatistics,
) -> (words: [u32; 23])
    ensures
        words@ == feature_words(*difficulty, *base, *overlap),
{
    let words: [u32; 23] = [
        difficulty.aim.bits,
        difficulty.speed.bits,
        difficulty.reading.bits,
        difficulty.slider.bits,
        difficulty.overlap.bits,
        base.bpm.bits,
        base.ar.bits,
        base.od.bits,
        base.cs.bits,
        base.hp.bits,
        base.length_seconds.bits,
        base.object_count.bits,
        base.object_density.bits,
        base.circle_ratio.bits,
        base.slider_ratio.bits,
        base.spinner_ratio.bits,
        base.max_combo.bits,
        overlap.peak.bits,
        overlap.p95.bits,
        overlap.sustained_ratio.bits,
        overlap.stack_rate.bits,
        overlap.slider_occlusion_rate.bits,
        overlap.path_crossing_rate.bits,
    ];
    assert(words@ =~= feature_words(*difficulty, *base, *overlap));
    words
}

fn features_of(words: &[u32; 23]) -> (features: (
    DifficultyVector,
    BaseFeatures,
    OverlapStatistics,
))
    ensures
        feature_words(features.0, features.1, features.2) == words@,
{
    let difficulty = DifficultyVector {
        aim: F32::from_bits(words[0]),
        speed: F32::from_bits(words[1]),
        reading: F32::from_bits(words[2]),
        slider: F32::from_bits(words[3]),
        overlap: F32::from_bits(words[4]),
    };
    let base = BaseFeatures {
        bpm: F32::from_bits(words[5]),
        ar: F32::from_bits(words[6]),
        od: F32::from_bits(words[7]),
        cs: F32::from_bits(words[8]),
        hp: F32::from_bits(words[9]),
        length_seconds: F32::from_bits(words[10]),
        object_count: F32::from_bits(words[11]),
        object_density: F32::from_bits(words[12]),
        circle_ratio: F32::from_bits(words[13]),
        slider_ratio: F32::from_bits(words[14]),
        spinner_ratio: F32::from_bits(words[15]),
        max_combo: F32::from_bits(words[16]),
    };
    let overlap = OverlapStatistics {
        peak: F32::from_bits(words[17]),
        p95: F32::from_bits(words[18]),
        sustained_ratio: F32::from_bits(words[19]),
        stack_rate: F32::from_bits(words[20]),
        slider_occlusion_rate: F32::from_bits(words[21]),
        path_crossing_rate: F32::from_bits(words[22]),
    };
    assert(feature_words(difficulty, base, overlap) =~= words@);
    (difficulty, base, overlap)
}

/// The bytes of a normalized record.
pub fn encode_normalized(record: &BeatmapFeatureRecord) -> (bytes: Result<
    Vec<u8>,
    Box<bincode::ErrorKind>,
>)
    ensures
        bytes matches Ok(bytes) && bytes@ == normalized_bytes(*record) && bytes@.len() == 124,
{
    let features: [u32; 23] = words_of(&record.difficulty, &record.base, &record.overlap);
    let versions: [u32; 4] = [
        record.analyzer_version,
        record.normalization_version,
        record.mod_profile,
        record.flags,
    ];
    proof {
        assert(versions@ =~= seq![
            record.analyzer_version,
            record.normalization_version,
            record.mod_profile,
            record.flags,
        ]);
        lemma_layout_length(record.beatmap_id, record.beatmapset_id, features@, versions@);
    }
    serialize_normalized(record.beatmap_id, record.beatmapset_id, features, versions)
}

/// The normalized record that `bytes` begin with.
pub fn decode_normalized(bytes: &[u8]) -> (record: Result<
    BeatmapFeatureRecord,
    Box<bincode::ErrorKind>,
>)
    ensures
        match record {
            Ok(record) => bytes@.len() >= 124 && bytes@.take(124) == normalized_bytes(record),
            Err(_) => bytes@.len() < 124,
        },
{
    let fields: (u64, u64, [u32; 23], [u32; 4]) = match deserialize_normalized(bytes) {
        Ok(fields) => fields,
        Err(error) => {
            return Err(error);
        },
    };
    let (difficulty, base, overlap) = features_of(&fields.2);
    let versions: [u32; 4] = fields.3;
    let record = BeatmapFeatureRecord {
        beatmap_id: fields.0,
        beatmapset_id: fields.1,
        difficulty,
        base,
        overlap,
        analyzer_version: versions[0],
        normalization_version: versions[1],
        mod_profile: versions[2],
        flags: versions[3],
    };
    assert(versions@ =~= seq![
        record.analyzer_version,
        record.normalization_version,
        record.mod_profile,
        record.flags,
    ]);
    Ok(record)
}

/// The bytes of a raw record.
pub fn encode_raw(record: &RawFeatureRecord) -> (bytes: Result<Vec<u8>, Box<bincode::ErrorKind>>)
    ensures
        bytes matches Ok(bytes) && bytes@ == raw_bytes(*record) && bytes@.len() == 116,
{
    let features: [u32; 23] = words_of(&record.raw_difficulty, &record.base, &record.overlap);
    let versions: [u32; 2] = [record.analyzer_version, record.mod_profile];
    proof {
        assert(versions@ =~= seq![record.analyzer_version, record.mod_profile]);
        lemma_layout_length(record.beatmap_id, record.beatmapset_id, features@, versions@);
    }
    serialize_raw(record.beatmap_id, record.beatmapset_id, features, versions)
}

/// The raw record that `bytes` begin with.
pub fn decode_raw(bytes: &[u8]) -> (record: Result<RawFeatureRecord, Box<bincode::ErrorKind>>)
    ensures
        match record {
            Ok(record) => bytes@.len() >= 116 && bytes@.take(116) == raw_bytes(record),
            Err(_) => bytes@.len() < 116,
        },
{
    let fields: (u64, u64, [u32; 23], [u32; 2]) = match deserialize_raw(bytes) {
        Ok(fields) => fields,
        Err(error) => {
            return Err(error);
        },
    };
    let (raw_difficulty, base, overlap) = features_of(&fields.2);
    let versions: [u32; 2] = fields.3;
    let record = RawFeatureRecord {
        beatmap_id: fields.0,
        beatmapset_id: fields.1,
        raw_difficulty,
        base,
        overlap,
        analyzer_version: versions[0],
        mod_profile: versions[1],
    };
    assert(versions@ =~= seq![record.analyzer_version, record.mod_profile]);
    Ok(record)
}

proof fn lemma_layout_length(
    beatmap_id: u64,
    beatmapset_id: u64,
    features: Seq<u32>,
    versions: Seq<u32>,
)
    ensures
        layout(beatmap_id, beatmapset_id, features, versions).len() == 16 + 4 * features.len() + 4
            * versions.len(),
{
    crate::bytes::lemma_le_bytes_length(beatmap_id as nat, 8);
    crate::bytes::lemma_le_bytes_length(beatmapset_id as nat, 8);
    crate::bytes::lemma_words_bytes_length(features);
    crate::bytes::lemma_words_bytes_length(versions);
}

proof fn lemma_layout_injective(
    ids: (u64, u64),
    features: Seq<u32>,
    versions: Seq<u32>,
    other_ids: (u64, u64),
    other_features: Seq<u32>,
    other_versions: Seq<u32>,
)
    requires
        features.len() == other_features.len(),
        versions.len() == other_versions.len(),
        layout(ids.0, ids.1, features, versions) == layout(
            other_ids.0,
            other_ids.1,
            other_features,
            other_versions,
        ),
    ensures
        ids == other_ids,
        features == other_features,
        versions == other_versions,
{
    let bytes = layout(ids.0, ids.1, features, versions);
    let n = (4 * features.len()) as int;
    lemma_layout_length(ids.0, ids.1, features, versions);
    crate::bytes::lemma_le_bytes_length(ids.0 as nat, 8);
    crate::bytes::lemma_le_bytes_length(ids.1 as nat, 8);
    crate::bytes::lemma_le_bytes_length(other_ids.0 as nat, 8);
    crate::bytes::lemma_le_bytes_length(other_ids.1 as nat, 8);
    crate::bytes::lemma_words_bytes_length(features);
    crate::bytes::lemma_words_bytes_length(other_features);
    crate::bytes::lemma_words_bytes_length(versions);
    crate::bytes::lemma_words_bytes_length(other_versions);
    assert(bytes.subrange(0, 8) =~= crate::bytes::le_bytes(ids.0 as nat, 8));
    assert(bytes.subrange(0, 8) =~= crate::bytes::le_bytes(other_ids.0 as nat, 8));
    assert(bytes.subrange(8, 16) =~= crate::bytes::le_bytes(ids.1 as nat, 8));
    assert(bytes.subrange(8, 16) =~= crate::bytes::le_bytes(other_ids.1 as nat, 8));
    assert(bytes.subrange(16, 16 + n) =~= crate::bytes::words_bytes(features));
    assert(bytes.subrange(16, 16 + n) =~= crate::bytes::words_bytes(other_features));
    assert(bytes.skip(16 + n) =~= crate::bytes::words_bytes(versions));
    assert(bytes.skip(16 + n) =~= crate::bytes::words_bytes(other_versions));
    reveal_with_fuel(crate::bytes::fits, 9);
    crate::bytes::lemma_le_bytes_injective(ids.0 as nat, other_ids.0 as nat, 8);
    crate::bytes::lemma_le_bytes_injective(ids.1 as nat, other_ids.1 as nat, 8);
    crate::bytes::lemma_words_injective(features, other_features);
    crate::bytes::lemma_words_injective(versions, other_versions);
}

proof fn lemma_features_injective(
    left: (DifficultyVector, BaseFeatures, OverlapStatistics),
    right: (DifficultyVector, BaseFeatures, OverlapStatistics),
)
    requires
        feature_words(left.0, left.1, left.2) == feature_words(right.0, right.1, right.2),
    ensures
        left == right,
{
    let a = feature_words(left.0, left.1, left.2);
    let b = feature_words(right.0, right.1, right.2);
    assert forall|i: int| 0 <= i < 23 implies #[trigger] a[i] == b[i] by {}
    assert(a[0] == b[0] && a[1] == b[1] && a[2] == b[2] && a[3] == b[3] && a[4] == b[4]);
    assert(a[5] == b[5] && a[6] == b[6] && a[7] == b[7] && a[8] == b[8] && a[9] == b[9]);
    assert(a[10] == b[10] && a[11] == b[11] && a[12] == b[12] && a[13] == b[13] && a[14] == b[14]);
    assert(a[15] == b[15] && a[16] == b[16] && a[17] == b[17] && a[18] == b[18] && a[19] == b[19]);
    assert(a[20] == b[20] && a[21] == b[21] && a[22] == b[22]);
}

/// Reading a normalized record gives back the record that was written, whatever stands
/// behind it.
pub proof fn law_normalized_record_reads_back(
    written: BeatmapFeatureRecord,
    read: BeatmapFeatureRecord,
    behind: Seq<u8>,
)
    requires
        (normalized_bytes(written) + behind).take(124) == normalized_bytes(read),
    ensures
        read == written,
        normalized_bytes(written).len() == 124,
{
    let features = feature_words(written.difficulty, written.base, written.overlap);
    let others = feature_words(read.difficulty, read.base, read.overlap);
    let versions = seq![
        written.analyzer_version,
        written.normalization_version,
        written.mod_profile,
        written.flags,
    ];
    let other_versions = seq![
        read.analyzer_version,
        read.normalization_version,
        read.mod_profile,
        read.flags,
    ];
    lemma_layout_length(written.beatmap_id, written.beatmapset_id, features, versions);
    assert((normalized_bytes(written) + behind).take(124) =~= normalized_bytes(written));
    lemma_layout_injective(
        (written.beatmap_id, written.beatmapset_id),
        features,
        versions,
        (read.beatmap_id, read.beatmapset_id),
        others,
        other_versions,
    );
    lemma_features_injective(
        (written.difficulty, written.base, written.overlap),
        (read.difficulty, read.base, read.overlap),
    );
    assert(versions[0] == other_versions[0] && versions[1] == other_versions[1] && versions[2]
        == other_versions[2] && versions[3] == other_versions[3]);
}

/// Reading a raw record gives back the record that was written, whatever stands behind it.
pub proof fn law_raw_record_reads_back(
    written: RawFeatureRecord,
    read: RawFeatureRecord,
    behind: Seq<u8>,
)
    requires
        (raw_bytes(written) + behind).take(116) == raw_bytes(read),
    ensures
        read == written,
        raw_bytes(written).len() == 116,
{
    let features = feature_words(written.raw_difficulty, written.base, written.overlap);
    let others = feature_words(read.raw_difficulty, read.base, read.overlap);
    let versions = seq![written.analyzer_version, written.mod_profile];
    let other_versions = seq![read.analyzer_version, read.mod_profile];
    lemma_layout_length(written.beatmap_id, written.beatmapset_id, features, versions);
    assert((raw_bytes(written) + behind).take(116) =~= raw_bytes(written));
    lemma_layout_injective(
        (written.beatmap_id, written.beatmapset_id),
        features,
        versions,
        (read.beatmap_id, read.beatmapset_id),
        others,
        other_versions,
    );
    lemma_features_injective(
        (written.raw_difficulty, written.base, written.overlap),
        (read.raw_difficulty, read.base, read.overlap),
    );
    assert(versions[0] == other_versions[0] && versions[1] == other_versions[1]);
}

/// The header of a feature file: its magic, the format version at the ninth byte, and zeros.
pub open spec fn header_bytes(magic: Seq<u8>) -> Seq<u8> {
    Seq::new(
        32,
        |i: int|
            if 0 <= i < 7 {
                magic[i]
            } else if i == 8 {
                1u8
            } else {
                0u8
            },
    )
}

/// The header of a feature file with the given magic.
pub fn header(magic: &[u8; 7]) -> (bytes: Vec<u8>)
    ensures
        bytes@ == header_bytes(magic@),
{
    let mut bytes: Vec<u8> = Vec::new();
    let mut i: usize = 0;
    while i < 32
        invariant
            i <= 32,
            bytes@.len() == i,
            forall|k: int| 0 <= k < i ==> bytes@[k] == header_bytes(magic@)[k],
        decreases 32 - i,
    {
        let byte: u8 = if i < 7 {
            magic[i]
        } else if i == 8 {
            1
        } else {
            0
        };
        bytes.push(byte);
        i = i + 1;
    }
    assert(bytes@ =~= header_bytes(magic@));
    bytes
}

/// What stands at the front of the raw feature file.
pub open spec fn raw_magic() -> Seq<u8> {
    seq![0x4fu8, 0x44, 0x4c, 0x52, 0x41, 0x57, 0x31]
}

/// What stands at the front of a published feature file.
pub open spec fn normalized_magic() -> Seq<u8> {
    seq![0x4fu8, 0x44, 0x4c, 0x4e, 0x4f, 0x52, 0x4d]
}

/// The header of the raw feature file.
pub fn raw_header() -> (bytes: Vec<u8>)
    ensures
        bytes@ == header_bytes(raw_magic()),
{
    let magic: [u8; 7] = [0x4f, 0x44, 0x4c, 0x52, 0x41, 0x57, 0x31];
    assert(magic@ =~= raw_magic());
    header(&magic)
}

/// The bytes of records, one after another.
pub open spec fn all_bytes(records: Seq<BeatmapFeatureRecord>) -> Seq<u8>
    decreases records.len(),
{
    if records.len() == 0 {
        seq![]
    } else {
        all_bytes(records.drop_last()) + normalized_bytes(records.last())
    }
}

/// The feature file that holds normalized records.
pub open spec fn normalized_file_bytes(records: Seq<BeatmapFeatureRecord>) -> Seq<u8> {
    header_bytes(normalized_magic()) + all_bytes(records)
}

fn push_bytes(bytes: &mut Vec<u8>, more: &Vec<u8>)
    ensures
        final(bytes)@ == old(bytes)@ + more@,
{
    let ghost before = bytes@;
    let mut i: usize = 0;
    assert(bytes@ =~= before + more@.take(0));
    while i < more.len()
        invariant
            i <= more@.len(),
            bytes@ == before + more@.take(i as int),
        decreases more@.len() - i,
    {
        bytes.push(more[i]);
        assert(bytes@ =~= before + more@.take(i + 1));
        i = i + 1;
    }
    assert(more@.take(more@.len() as int) =~= more@);
}

/// Adds a raw record behind the raw feature file.
pub(crate) fn append_raw_record(file: &mut Vec<u8>, record: &RawFeatureRecord)
    ensures
        final(file)@ == old(file)@ + raw_bytes(*record),
{
    if let Ok(bytes) = encode_raw(record) {
        push_bytes(file, &bytes);
    }
}

/// The feature file that holds normalized records.
pub(crate) fn normalized_file(records: &Vec<BeatmapFeatureRecord>) -> (file: Vec<u8>)
    ensures
        file@ == normalized_file_bytes(records@),
{
    let magic: [u8; 7] = [0x4f, 0x44, 0x4c, 0x4e, 0x4f, 0x52, 0x4d];
    assert(magic@ =~= normalized_magic());
    let mut file: Vec<u8> = header(&magic);
    let ghost front = file@;
    let mut i: usize = 0;
    assert(file@ =~= front + all_bytes(records@.take(0)));
    while i < records.len()
        invariant
            i <= records@.len(),
            file@ == front + all_bytes(records@.take(i as int)),
        decreases records@.len() - i,
    {
        let ghost now = file@;
        if let Ok(bytes) = encode_normalized(&records[i]) {
            push_bytes(&mut file, &bytes);
        }
        proof {
            assert(records@.take(i + 1).drop_last() =~= records@.take(i as int));
            assert(file@ == now + normalized_bytes(records@[i as int]));
            assert(file@ =~= front + all_bytes(records@.take(i + 1)));
        }
        i = i + 1;
    }
    assert(records@.take(records@.len() as int) =~= records@);
    file
}

/// The raw record whose bytes stand at `offset` in a file, if the file reaches that far.
pub open spec fn raw_at(file: Seq<u8>, offset: u64) -> Option<RawFeatureRecord> {
    if offset + RAW_RECORD_SIZE <= file.len() {
        Some(
            choose|record: RawFeatureRecord| #[trigger]
                raw_bytes(record) == file.subrange(offset as int, offset + RAW_RECORD_SIZE),
        )
    } else {
        None
    }
}

/// The normalized record whose bytes stand at `offset` in a file, if the file reaches that far.
pub open spec fn normalized_at(file: Seq<u8>, offset: u64) -> Option<BeatmapFeatureRecord> {
    if offset + NORMALIZED_RECORD_SIZE <= file.len() {
        Some(
            choose|record: BeatmapFeatureRecord| #[trigger]
                normalized_bytes(record) == file.subrange(
                    offset as int,
                    offset + NORMALIZED_RECORD_SIZE,
                ),
        )
    } else {
        None
    }
}

/// A record is the one that stands at an offset if its bytes do.
pub proof fn lemma_raw_at(file: Seq<u8>, offset: u64, record: RawFeatureRecord)
    requires
        offset + RAW_RECORD_SIZE <= file.len(),
        file.subrange(offset as int, offset + RAW_RECORD_SIZE) == raw_bytes(record),
    ensures
        raw_at(file, offset) == Some(record),
{
    let bytes = file.subrange(offset as int, offset + RAW_RECORD_SIZE);
    let chosen = choose|record: RawFeatureRecord| #[trigger] raw_bytes(record) == bytes;
    assert(raw_bytes(chosen) == bytes);
    assert((raw_bytes(chosen) + Seq::<u8>::empty()).take(116) =~= bytes);
    law_raw_record_reads_back(chosen, record, seq![]);
}

/// A record is the one that stands at an offset if its bytes do.
pub proof fn lemma_normalized_at(file: Seq<u8>, offset: u64, record: BeatmapFeatureRecord)
    requires
        offset + NORMALIZED_RECORD_SIZE <= file.len(),
        file.subrange(offset as int, offset + NORMALIZED_RECORD_SIZE) == normalized_bytes(record),
    ensures
        normalized_at(file, offset) == Some(record),
{
    let bytes = file.subrange(offset as int, offset + NORMALIZED_RECORD_SIZE);
    let chosen = choose|record: BeatmapFeatureRecord| #[trigger] normalized_bytes(record) == bytes;
    assert(normalized_bytes(chosen) == bytes);
    assert((normalized_bytes(chosen) + Seq::<u8>::empty()).take(124) =~= bytes);
    law_normalized_record_reads_back(chosen, record, seq![]);
}

/// Reads the raw record at an offset of a file.
pub fn read_raw_record(file: &Vec<u8>, offset: u64) -> (record: Option<RawFeatureRecord>)
    ensures
        record == raw_at(file@, offset),
{
    let count: u64 = file.len() as u64;
    if count < RAW_RECORD_SIZE || offset > count - RAW_RECORD_SIZE {
        return None;
    }
    let from: usize = offset as usize;
    let bytes: &[u8] = slice_subrange(file.as_slice(), from, from + 116);
    assert(bytes@.take(116) =~= bytes@);
    match decode_raw(bytes) {
        Ok(record) => {
            proof {
                lemma_raw_at(file@, offset, record);
            }
            Some(record)
        },
        Err(_) => None,
    }
}

/// Reads the normalized record at an offset of a file.
pub fn read_normalized_record(file: &Vec<u8>, offset: u64) -> (record: Option<
    BeatmapFeatureRecord,
>)
    ensures
        record == normalized_at(file@, offset),
{
    let count: u64 = file.len() as u64;
    if count < NORMALIZED_RECORD_SIZE || offset > count - NORMALIZED_RECORD_SIZE {
        return None;
    }
    let from: usize = offset as usize;
    let bytes: &[u8] = slice_subrange(file.as_slice(), from, from + 124);
    assert(bytes@.take(124) =~= bytes@);
    match decode_normalized(bytes) {
        Ok(record) => {
            proof {
                lemma_normalized_at(file@, offset, record);
            }
            Some(record)
        },
        Err(_) => None,
    }
}

proof fn lemma_normalized_length(record: BeatmapFeatureRecord)
    ensures
        normalized_bytes(record).len() == 124,
{
    lemma_layout_length(
        record.beatmap_id,
        record.beatmapset_id,
        feature_words(record.difficulty, record.base, record.overlap),
        seq![
            record.analyzer_version,
            record.normalization_version,
            record.mod_profile,
            record.flags,
        ],
    );
}

/// The bytes of each record stand behind those of the records before it.
proof fn lemma_all_bytes(records: Seq<BeatmapFeatureRecord>, j: int)
    requires
        0 <= j < records.len(),
    ensures
        all_bytes(records).len() == records.len() * 124,
        all_bytes(records).subrange(j * 124, j * 124 + 124) == normalized_bytes(records[j]),
    decreases records.len(),
{
    let front = records.drop_last();
    lemma_normalized_length(records.last());
    if front.len() > 0 {
        lemma_all_bytes(front, if j < front.len() {
            j
        } else {
            0
        });
    } else {
        assert(all_bytes(front) =~= seq![]);
    }
    if j < front.len() {
        assert(all_bytes(records).subrange(j * 124, j * 124 + 124) =~= all_bytes(front).subrange(
            j * 124,
            j * 124 + 124,
        ));
    } else {
        assert(all_bytes(records).subrange(j * 124, j * 124 + 124) =~= normalized_bytes(
            records[j],
        ));
    }
}

/// A feature file holds its records one after another behind the header.
pub proof fn law_written_records_read_back(records: Seq<BeatmapFeatureRecord>, j: int)
    requires
        0 <= j < records.len(),
        HEADER_LEN + j * NORMALIZED_RECORD_SIZE <= u64::MAX,
    ensures
        normalized_at(
            normalized_file_bytes(records),
            (HEADER_LEN + j * NORMALIZED_RECORD_SIZE) as u64,
        ) == Some(records[j]),
{
    let file = normalized_file_bytes(records);
    let offset = (HEADER_LEN + j * NORMALIZED_RECORD_SIZE) as u64;
    lemma_all_bytes(records, j);
    assert(file.subrange(offset as int, offset + 124) =~= all_bytes(records).subrange(
        j * 124,
        j * 124 + 124,
    ));
    lemma_normalized_at(file, offset, records[j]);
}

/// The raw feature file only grows: the record that was appended is read at the offset where
/// the file ended, and whatever could be read before reads the same.
pub proof fn law_appended_record_reads_back(file: Seq<u8>, record: RawFeatureRecord)
    requires
        file.len() <= u64::MAX,
    ensures
        raw_at(file + raw_bytes(record), file.len() as u64) == Some(record),
        forall|offset: u64| #[trigger]
            raw_at(file, offset) is Some ==> raw_at(file + raw_bytes(record), offset) == raw_at(
                file,
                offset,
            ),
{
    let longer = file + raw_bytes(record);
    let end = file.len() as u64;
    lemma_layout_length(
        record.beatmap_id,
        record.beatmapset_id,
        feature_words(record.raw_difficulty, record.base, record.overlap),
        seq![record.analyzer_version, record.mod_profile],
    );
    assert(longer.subrange(end as int, end + 116) =~= raw_bytes(record));
    lemma_raw_at(longer, end, record);
    assert forall|offset: u64| #[trigger] raw_at(file, offset) is Some implies raw_at(
        longer,
        offset,
    ) == raw_at(file, offset) by {
        assert(longer.subrange(offset as int, offset + 116) =~= file.subrange(
            offset as int,
            offset + 116,
        ));
    }
}

/// A header has 32 bytes: the seven of the magic, a zero, the format version, and zeros.
pub proof fn law_headers(magic: Seq<u8>, i: int)
    requires
        magic.len() == 7,
    ensures
        header_bytes(magic).len() == 32,
        0 <= i < 7 ==> header_bytes(magic)[i] == magic[i],
        header_bytes(magic)[8] == 1,
        7 <= i < 32 && i != 8 ==> header_bytes(magic)[i] == 0,
{
}

/// Files of raw records begin with the letters `ODLRAW1`, and files of normalized ones with
/// `ODLNORM`, so that neither is taken for the other.
pub proof fn law_magics(i: int)
    ensures
        0 <= i < 7 ==> raw_magic()[i] as char == "ODLRAW1"@[i],
        0 <= i < 7 ==> normalized_magic()[i] as char == "ODLNORM"@[i],
        raw_magic().len() == 7,
        normalized_magic().len() == 7,
        header_bytes(raw_magic()) != header_bytes(normalized_magic()),
{
    reveal_strlit("ODLRAW1");
    reveal_strlit("ODLNORM");
    assert(header_bytes(raw_magic())[3] == raw_magic()[3]);
    assert(header_bytes(normalized_magic())[3] == normalized_magic()[3]);
}

} // verus!
