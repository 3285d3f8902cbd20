//! The file in which a mania bucket index is kept.

use vstd::prelude::*;

use crate::checksum::{checksum_matches, checksum_of};
use crate::mania::ManiaModeFamily;
use crate::mania_index::{ManiaBucket, ManiaBucketEntry, ManiaBucketIndex};
use crate::text::{push_text, string_of};

verus! {

/// A bucket as plain numbers; of an entry these are the beatmap, its set, the mode family and
/// the offset.
pub struct PlainBucket {
    pub key_count: u8,
    pub difficulty_band: u8,
    pub entries: Seq<(u64, u64, u32, u64)>,
}

/// A bucket index as plain numbers.
pub struct PlainIndex {
    pub normalization_version: u32,
    pub analyzer_version: u32,
    pub buckets: Seq<PlainBucket>,
}

pub open spec fn plain_entry(entry: ManiaBucketEntry) -> (u64, u64, u32, u64) {
    (
        entry.beatmap_id,
        entry.beatmapset_id,
        entry.mode_family.code as u32,
        entry.normalized_offset,
    )
}

pub open spec fn plain_bucket(bucket: ManiaBucket) -> PlainBucket {
    PlainBucket {
        key_count: bucket.key_count,
        difficulty_band: bucket.difficulty_band,
        entries: Seq::new(bucket.entries@.len(), |i: int| plain_entry(bucket.entries@[i])),
    }
}

/// The index as plain numbers.
pub open spec fn plain_index(index: ManiaBucketIndex) -> PlainIndex {
    PlainIndex {
        normalization_version: index.normalization_version,
        analyzer_version: index.analyzer_version,
        buckets: Seq::new(index.buckets@.len(), |i: int| plain_bucket(index.buckets@[i])),
    }
}

// The layout

pub open spec fn entry_bytes(entry: (u64, u64, u32, u64)) -> Seq<u8> {
    crate::bytes::le_bytes(entry.0 as nat, 8) + crate::bytes::le_bytes(entry.1 as nat, 8)
        + crate::bytes::le_bytes(entry.2 as nat, 4) + crate::bytes::le_bytes(
        entry.3 as nat,
        8,
    )
}

pub open spec fn entries_bytes(entries: Seq<(u64, u64, u32, u64)>) -> Seq<u8>
    decreases entries.len(),
{
    if entries.len() == 0 {
        seq![]
    } else {
        entry_bytes(entries[0]) + entries_bytes(entries.skip(1))
    }
}

/// A bucket in bytes: its numbers, how many entries it has, and those.
pub open spec fn bucket_bytes(bucket: PlainBucket) -> Seq<u8> {
    seq![bucket.key_count, bucket.difficulty_band] + crate::bytes::le_bytes(
        bucket.entries.len(),
        8,
    ) + entries_bytes(bucket.entries)
}

pub open spec fn buckets_bytes(buckets: Seq<PlainBucket>) -> Seq<u8>
    decreases buckets.len(),
{
    if buckets.len() == 0 {
        seq![]
    } else {
        bucket_bytes(buckets[0]) + buckets_bytes(buckets.skip(1))
    }
}

/// An index in bytes: its versions, how many buckets it has, and those.
pub open spec fn index_bytes(index: PlainIndex) -> Seq<u8> {
    crate::bytes::le_bytes(index.normalization_version as nat, 4) + crate::bytes::le_bytes(
        index.analyzer_version as nat,
        4,
    ) + crate::bytes::le_bytes(index.buckets.len(), 8) + buckets_bytes(index.buckets)
}

/// Whether the counts in an index can be written down.
pub open spec fn countable(index: PlainIndex) -> bool {
    &&& index.buckets.len() <= u64::MAX
    &&& forall|i: int|
        0 <= i < index.buckets.len() ==> (#[trigger] index.buckets[i]).entries.len() <= u64::MAX
}

pub open spec fn tuple_buckets(buckets: Seq<(u8, u8, Vec<(u64, u64, u32, u64)>)>) -> Seq<
    PlainBucket,
> {
    Seq::new(
        buckets.len(),
        |i: int|
            PlainBucket {
                key_count: buckets[i].0,
                difficulty_band: buckets[i].1,
                entries: buckets[i].2@,
            },
    )
}

/// The index in a tuple of its fields.
pub open spec fn tuple_index(
    fields: (u32, u32, Vec<(u8, u8, Vec<(u64, u64, u32, u64)>)>),
) -> PlainIndex {
    PlainIndex {
        normalization_version: fields.0,
        analyzer_version: fields.1,
        buckets: tuple_buckets(fields.2@),
    }
}

/// `bincode::serialize` writes the values of a tuple one after another, each integer in its own
/// number of bytes with the least significant one first, and in front of the items of a vector
/// their number in eight bytes. Into a vector of bytes and without a size limit it never fails
/// on them.
#[verifier::external_body]
fn serialize_index(fields: &(u32, u32, Vec<(u8, u8, Vec<(u64, u64, u32, u64)>)>)) -> (bytes: Result<
    Vec<u8>,
    Box<bincode::ErrorKind>,
>)
    ensures
        bytes matches Ok(bytes) && bytes@ == index_bytes(tuple_index(*fields)),
{
    bincode::serialize(fields)
}

/// `bincode::deserialize` reads what `bincode::serialize` writes for such a tuple, and leaves
/// bytes behind it alone. It fails exactly when the bytes do not start with what is written for
/// any tuple.
#[verifier::external_body]
fn deserialize_index(bytes: &[u8]) -> (fields: Result<
    (u32, u32, Vec<(u8, u8, Vec<(u64, u64, u32, u64)>)>),
    Box<bincode::ErrorKind>,
>)
    ensures
        match fields {
            Ok(fields) => crate::bytes::begins_with(bytes@, index_bytes(tuple_index(fields))),
            Err(_) => forall|index: PlainIndex| #[trigger]
                countable(index) ==> !crate::bytes::begins_with(bytes@, index_bytes(index)),
        },
{
    bincode::deserialize(bytes)
}

// Writing and reading

fn tuple_entries(entries: &Vec<ManiaBucketEntry>) -> (tuples: Vec<(u64, u64, u32, u64)>)
    ensures
        tuples@ == Seq::new(entries@.len(), |i: int| plain_entry(entries@[i])),
{
    let mut tuples: Vec<(u64, u64, u32, u64)> = Vec::new();
    let mut i: usize = 0;
    while i < entries.len()
        invariant
            i <= entries@.len(),
            tuples@.len() == i,
            forall|k: int| 0 <= k < i ==> tuples@[k] == plain_entry(entries@[k]),
        decreases entries@.len() - i,
    {
        let entry: ManiaBucketEntry = entries[i];
        tuples.push(
            (
                entry.beatmap_id,
                entry.beatmapset_id,
                entry.mode_family.code as u32,
                entry.normalized_offset,
            ),
        );
        i = i + 1;
    }
    assert(tuples@ =~= Seq::new(entries@.len(), |k: int| plain_entry(entries@[k])));
    tuples
}

/// The bytes of an index.
pub fn encode_mania_index(index: &ManiaBucketIndex) -> (bytes: Result<
    Vec<u8>,
    Box<bincode::ErrorKind>,
>)
    ensures
        bytes matches Ok(bytes) && bytes@ == index_bytes(plain_index(*index)),
{
    let mut buckets: Vec<(u8, u8, Vec<(u64, u64, u32, u64)>)> = Vec::new();
    let mut i: usize = 0;
    while i < index.buckets.len()
        invariant
            i <= index.buckets@.len(),
            buckets@.len() == i,
            forall|k: int|
                0 <= k < i ==> tuple_buckets(buckets@)[k] == plain_bucket(index.buckets@[k]),
        decreases index.buckets@.len() - i,
    {
        let bucket: &ManiaBucket = &index.buckets[i];
        let ghost before = buckets@;
        buckets.push((bucket.key_count, bucket.difficulty_band, tuple_entries(&bucket.entries)));
        proof {
            assert forall|k: int| 0 <= k < i + 1 implies tuple_buckets(buckets@)[k]
                == plain_bucket(index.buckets@[k]) by {
                if k < i {
                    assert(tuple_buckets(before)[k] == plain_bucket(index.buckets@[k]));
                }
            }
        }
        i = i + 1;
    }
    let fields: (u32, u32, Vec<(u8, u8, Vec<(u64, u64, u32, u64)>)>) = (
        index.normalization_version,
        index.analyzer_version,
        buckets,
    );
    assert(tuple_index(fields).buckets =~= plain_index(*index).buckets);
    serialize_index(&fields)
}

/// Why a file is not a bucket index.
#[derive(Clone, Copy, Debug, PartialEq, Eq, Structural)]
pub enum ManiaFileError {
    /// The file is not the one that the checksum was taken of.
    Checksum,
    /// The file does not hold an index.
    Format,
}

impl ManiaFileError {
    pub open spec fn text(self, path: Seq<char>) -> Seq<char> {
        match self {
            ManiaFileError::Checksum => "mania bucket index checksum mismatch: "@ + path,
            ManiaFileError::Format => "invalid mania bucket index: "@ + path,
        }
    }

    /// The error on the file at `path` in words.
    pub fn message(&self, path: &str) -> (message: String)
        ensures
            message@ == self.text(path@),
    {
        let mut text: Vec<char> = Vec::new();
        match self {
            ManiaFileError::Checksum => push_text(
                &mut text,
                "mania bucket index checksum mismatch: ",
            ),
            ManiaFileError::Format => push_text(&mut text, "invalid mania bucket index: "),
        }
        push_text(&mut text, path);
        assert(text@ =~= self.text(path@));
        string_of(text.as_slice())
    }
}

/// Whether the mode families of an index are known by codes.
pub open spec fn has_families(index: PlainIndex) -> bool {
    forall|b: int, e: int|
        0 <= b < index.buckets.len() && 0 <= e < index.buckets[b].entries.len() ==> (
        #[trigger] index.buckets[b].entries[e]).2 <= u8::MAX
}

fn entries_of(tuples: &Vec<(u64, u64, u32, u64)>) -> (entries: Option<Vec<ManiaBucketEntry>>)
    ensures
        match entries {
            Some(entries) => tuples@ == Seq::new(
                entries@.len(),
                |i: int| plain_entry(entries@[i]),
            ),
            None => exists|e: int| 0 <= e < tuples@.len() && (#[trigger] tuples@[e]).2 > u8::MAX,
        },
{
    let mut entries: Vec<ManiaBucketEntry> = Vec::new();
    let mut i: usize = 0;
    while i < tuples.len()
        invariant
            i <= tuples@.len(),
            entries@.len() == i,
            forall|k: int| 0 <= k < i ==> tuples@[k] == plain_entry(#[trigger] entries@[k]),
        decreases tuples@.len() - i,
    {
        let tuple: (u64, u64, u32, u64) = tuples[i];
        if tuple.2 > 255 {
            assert(tuples@[i as int].2 > u8::MAX);
            return None;
        }
        entries.push(
            ManiaBucketEntry {
                beatmap_id: tuple.0,
                beatmapset_id: tuple.1,
                mode_family: ManiaModeFamily { code: tuple.2 as u8 },
                normalized_offset: tuple.3,
            },
        );
        i = i + 1;
    }
    assert(tuples@ =~= Seq::new(entries@.len(), |k: int| plain_entry(entries@[k])));
    Some(entries)
}

/// The index in `bytes`, if they start with one.
pub fn decode_mania_index(bytes: &[u8]) -> (index: Result<ManiaBucketIndex, ManiaFileError>)
    ensures
        match index {
            Ok(index) => crate::bytes::begins_with(bytes@, index_bytes(plain_index(index))),
            Err(error) => error == ManiaFileError::Format && forall|index: PlainIndex| #[trigger]
                countable(index) && has_families(index) ==> !crate::bytes::begins_with(
                    bytes@,
                    index_bytes(index),
                ),
        },
{
    let fields: (u32, u32, Vec<(u8, u8, Vec<(u64, u64, u32, u64)>)>) = match deserialize_index(
        bytes,
    ) {
        Ok(fields) => fields,
        Err(_) => {
            return Err(ManiaFileError::Format);
        },
    };
    let ghost plain = tuple_index(fields);
    let mut buckets: Vec<ManiaBucket> = Vec::new();
    let mut i: usize = 0;
    while i < fields.2.len()
        invariant
            i <= fields.2@.len(),
            plain == tuple_index(fields),
            crate::bytes::begins_with(bytes@, index_bytes(plain)),
            buckets@.len() == i,
            forall|k: int|
                0 <= k < i ==> plain.buckets[k] == plain_bucket(#[trigger] buckets@[k]),
        decreases fields.2@.len() - i,
    {
        match entries_of(&fields.2[i].2) {
            Some(entries) => {
                let bucket: ManiaBucket = ManiaBucket {
                    key_count: fields.2[i].0,
                    difficulty_band: fields.2[i].1,
                    entries,
                };
                assert(plain.buckets[i as int].entries =~= plain_bucket(bucket).entries);
                buckets.push(bucket);
            },
            None => {
                proof {
                    let tuples = fields.2@[i as int].2@;
                    let e = choose|e: int|
                        0 <= e < tuples.len() && (#[trigger] tuples[e]).2 > u8::MAX;
                    assert(plain.buckets[i as int].entries[e].2 > u8::MAX);
                    lemma_tuple_is_countable(fields);
                    assert forall|index: PlainIndex| #[trigger] countable(index) && has_families(
                        index,
                    ) implies !crate::bytes::begins_with(bytes@, index_bytes(index)) by {
                        if crate::bytes::begins_with(bytes@, index_bytes(index)) {
                            lemma_one_index(bytes@, plain, index);
                            assert(index.buckets[i as int].entries[e].2 > u8::MAX);
                        }
                    }
                }
                return Err(ManiaFileError::Format);
            },
        }
        i = i + 1;
    }
    let index: ManiaBucketIndex = ManiaBucketIndex {
        normalization_version: fields.0,
        analyzer_version: fields.1,
        buckets,
    };
    assert(plain.buckets =~= plain_index(index).buckets);
    Ok(index)
}

/// A file of an index: its bytes, and what is kept beside it as their checksum.
pub struct ManiaIndexFile {
    pub bytes: Vec<u8>,
    pub checksum: String,
}

/// The file of an index.
pub fn write_mania_index(index: &ManiaBucketIndex) -> (file: Result<
    ManiaIndexFile,
    Box<bincode::ErrorKind>,
>)
    ensures
        file matches Ok(file) && file.bytes@ == index_bytes(plain_index(*index))
            && file.checksum@ == crate::checksum::hex_text(
            crate::checksum::sha256_digest(file.bytes@),
        ),
{
    match encode_mania_index(index) {
        Ok(bytes) => {
            let checksum: String = checksum_of(bytes.as_slice());
            Ok(ManiaIndexFile { bytes, checksum })
        },
        Err(error) => Err(error),
    }
}

/// Whether `saved` is the checksum of `bytes`.
pub open spec fn is_saved_checksum(bytes: Seq<u8>, saved: Seq<char>) -> bool {
    crate::text::trimmed(saved) == crate::checksum::hex_text(crate::checksum::sha256_digest(bytes))
}

/// Reads a file of an index, if the checksum that was saved beside it is its own.
pub fn read_mania_index(bytes: &[u8], saved: &str) -> (index: Result<
    ManiaBucketIndex,
    ManiaFileError,
>)
    ensures
        if !is_saved_checksum(bytes@, saved@) {
            index matches Err(error) && error == ManiaFileError::Checksum
        } else {
            match index {
                Ok(index) => crate::bytes::begins_with(bytes@, index_bytes(plain_index(index))),
                Err(error) => error == ManiaFileError::Format && forall|other: PlainIndex|
                 #[trigger]
                    countable(other) && has_families(other) ==> !crate::bytes::begins_with(
                        bytes@,
                        index_bytes(other),
                    ),
            }
        },
{
    if !checksum_matches(bytes, saved) {
        return Err(ManiaFileError::Checksum);
    }
    decode_mania_index(bytes)
}

// One index in one file

proof fn lemma_tuple_is_countable(fields: (u32, u32, Vec<(u8, u8, Vec<(u64, u64, u32, u64)>)>))
    ensures
        countable(tuple_index(fields)),
{
    let index = tuple_index(fields);
    assert(fields.2@.len() == fields.2.len());
    assert forall|i: int| 0 <= i < index.buckets.len() implies (
    #[trigger] index.buckets[i]).entries.len() <= u64::MAX by {
        assert(fields.2@[i].2@.len() == fields.2@[i].2.len());
    }
}

proof fn lemma_entry_first(
    left: (u64, u64, u32, u64),
    right: (u64, u64, u32, u64),
    rest: Seq<u8>,
    other: Seq<u8>,
)
    requires
        entry_bytes(left) + rest == entry_bytes(right) + other,
    ensures
        left == right,
        rest == other,
{
    let a1 = crate::bytes::le_bytes(left.0 as nat, 8);
    let a2 = crate::bytes::le_bytes(left.1 as nat, 8);
    let a3 = crate::bytes::le_bytes(left.2 as nat, 4);
    let a4 = crate::bytes::le_bytes(left.3 as nat, 8);
    let b1 = crate::bytes::le_bytes(right.0 as nat, 8);
    let b2 = crate::bytes::le_bytes(right.1 as nat, 8);
    let b3 = crate::bytes::le_bytes(right.2 as nat, 4);
    let b4 = crate::bytes::le_bytes(right.3 as nat, 8);
    assert(entry_bytes(left) + rest =~= a1 + (a2 + (a3 + (a4 + rest))));
    assert(entry_bytes(right) + other =~= b1 + (b2 + (b3 + (b4 + other))));
    crate::bytes::lemma_fits_long(left.0 as nat);
    crate::bytes::lemma_fits_long(left.1 as nat);
    crate::bytes::lemma_fits_word(left.2 as nat);
    crate::bytes::lemma_fits_long(left.3 as nat);
    crate::bytes::lemma_fits_long(right.0 as nat);
    crate::bytes::lemma_fits_long(right.1 as nat);
    crate::bytes::lemma_fits_word(right.2 as nat);
    crate::bytes::lemma_fits_long(right.3 as nat);
    crate::bytes::lemma_number_first(
        left.0 as nat,
        right.0 as nat,
        8,
        a2 + (a3 + (a4 + rest)),
        b2 + (b3 + (b4 + other)),
    );
    crate::bytes::lemma_number_first(
        left.1 as nat,
        right.1 as nat,
        8,
        a3 + (a4 + rest),
        b3 + (b4 + other),
    );
    crate::bytes::lemma_number_first(left.2 as nat, right.2 as nat, 4, a4 + rest, b4 + other);
    crate::bytes::lemma_number_first(left.3 as nat, right.3 as nat, 8, rest, other);
}

proof fn lemma_entries_first(
    left: Seq<(u64, u64, u32, u64)>,
    right: Seq<(u64, u64, u32, u64)>,
    rest: Seq<u8>,
    other: Seq<u8>,
)
    requires
        left.len() == right.len(),
        entries_bytes(left) + rest == entries_bytes(right) + other,
    ensures
        left == right,
        rest == other,
    decreases left.len(),
{
    if left.len() == 0 {
        assert(left =~= right);
        assert(entries_bytes(left) + rest =~= rest);
        assert(entries_bytes(right) + other =~= other);
    } else {
        let a = entries_bytes(left.skip(1));
        let b = entries_bytes(right.skip(1));
        assert(entries_bytes(left) + rest =~= entry_bytes(left[0]) + (a + rest));
        assert(entries_bytes(right) + other =~= entry_bytes(right[0]) + (b + other));
        lemma_entry_first(left[0], right[0], a + rest, b + other);
        lemma_entries_first(left.skip(1), right.skip(1), rest, other);
        assert forall|i: int| 0 <= i < left.len() implies left[i] == right[i] by {
            if i > 0 {
                assert(left.skip(1)[i - 1] == right.skip(1)[i - 1]);
            }
        }
        assert(left =~= right);
    }
}

proof fn lemma_bucket_first(left: PlainBucket, right: PlainBucket, rest: Seq<u8>, other: Seq<u8>)
    requires
        left.entries.len() <= u64::MAX,
        right.entries.len() <= u64::MAX,
        bucket_bytes(left) + rest == bucket_bytes(right) + other,
    ensures
        left == right,
        rest == other,
{
    let a1 = seq![left.key_count, left.difficulty_band];
    let b1 = seq![right.key_count, right.difficulty_band];
    let a2 = crate::bytes::le_bytes(left.entries.len(), 8);
    let b2 = crate::bytes::le_bytes(right.entries.len(), 8);
    let a3 = entries_bytes(left.entries) + rest;
    let b3 = entries_bytes(right.entries) + other;
    let a = a1 + (a2 + a3);
    let b = b1 + (b2 + b3);
    assert(bucket_bytes(left) + rest =~= a);
    assert(bucket_bytes(right) + other =~= b);
    assert(a[0] == left.key_count && a[1] == left.difficulty_band);
    assert(b[0] == right.key_count && b[1] == right.difficulty_band);
    assert(a2 + a3 =~= a.skip(2));
    assert(b2 + b3 =~= b.skip(2));
    crate::bytes::lemma_fits_long(left.entries.len());
    crate::bytes::lemma_fits_long(right.entries.len());
    crate::bytes::lemma_number_first(left.entries.len(), right.entries.len(), 8, a3, b3);
    lemma_entries_first(left.entries, right.entries, rest, other);
}

proof fn lemma_buckets_first(
    left: Seq<PlainBucket>,
    right: Seq<PlainBucket>,
    rest: Seq<u8>,
    other: Seq<u8>,
)
    requires
        left.len() == right.len(),
        forall|i: int|
            0 <= i < left.len() ==> (#[trigger] left[i]).entries.len() <= u64::MAX,
        forall|i: int|
            0 <= i < right.len() ==> (#[trigger] right[i]).entries.len() <= u64::MAX,
        buckets_bytes(left) + rest == buckets_bytes(right) + other,
    ensures
        left == right,
        rest == other,
    decreases left.len(),
{
    if left.len() == 0 {
        assert(left =~= right);
        assert(buckets_bytes(left) + rest =~= rest);
        assert(buckets_bytes(right) + other =~= other);
    } else {
        let a = buckets_bytes(left.skip(1));
        let b = buckets_bytes(right.skip(1));
        assert(buckets_bytes(left) + rest =~= bucket_bytes(left[0]) + (a + rest));
        assert(buckets_bytes(right) + other =~= bucket_bytes(right[0]) + (b + other));
        assert(left[0].entries.len() <= u64::MAX);
        assert(right[0].entries.len() <= u64::MAX);
        lemma_bucket_first(left[0], right[0], a + rest, b + other);
        lemma_buckets_first(left.skip(1), right.skip(1), rest, other);
        assert forall|i: int| 0 <= i < left.len() implies left[i] == right[i] by {
            if i > 0 {
                assert(left.skip(1)[i - 1] == right.skip(1)[i - 1]);
            }
        }
        assert(left =~= right);
    }
}

/// Bytes start with one index at most.
proof fn lemma_one_index(bytes: Seq<u8>, left: PlainIndex, right: PlainIndex)
    requires
        countable(left),
        countable(right),
        crate::bytes::begins_with(bytes, index_bytes(left)),
        crate::bytes::begins_with(bytes, index_bytes(right)),
    ensures
        left == right,
{
    let rest = bytes.skip(index_bytes(left).len() as int);
    let other = bytes.skip(index_bytes(right).len() as int);
    crate::bytes::lemma_start_and_rest(bytes, index_bytes(left));
    crate::bytes::lemma_start_and_rest(bytes, index_bytes(right));
    let a1 = crate::bytes::le_bytes(left.normalization_version as nat, 4);
    let a2 = crate::bytes::le_bytes(left.analyzer_version as nat, 4);
    let a3 = crate::bytes::le_bytes(left.buckets.len(), 8);
    let a4 = buckets_bytes(left.buckets) + rest;
    let b1 = crate::bytes::le_bytes(right.normalization_version as nat, 4);
    let b2 = crate::bytes::le_bytes(right.analyzer_version as nat, 4);
    let b3 = crate::bytes::le_bytes(right.buckets.len(), 8);
    let b4 = buckets_bytes(right.buckets) + other;
    crate::bytes::lemma_regrouped(a1, a2, a3, buckets_bytes(left.buckets), rest);
    crate::bytes::lemma_regrouped(b1, b2, b3, buckets_bytes(right.buckets), other);
    crate::bytes::lemma_fits_word(left.normalization_version as nat);
    crate::bytes::lemma_fits_word(right.normalization_version as nat);
    crate::bytes::lemma_fits_word(left.analyzer_version as nat);
    crate::bytes::lemma_fits_word(right.analyzer_version as nat);
    crate::bytes::lemma_fits_long(left.buckets.len());
    crate::bytes::lemma_fits_long(right.buckets.len());
    crate::bytes::lemma_number_first(
        left.normalization_version as nat,
        right.normalization_version as nat,
        4,
        a2 + (a3 + a4),
        b2 + (b3 + b4),
    );
    crate::bytes::lemma_number_first(
        left.analyzer_version as nat,
        right.analyzer_version as nat,
        4,
        a3 + a4,
        b3 + b4,
    );
    crate::bytes::lemma_number_first(left.buckets.len(), right.buckets.len(), 8, a4, b4);
    lemma_buckets_first(left.buckets, right.buckets, rest, other);
}

/// A file that was written for an index is read back as that index: its checksum is accepted,
/// its bytes are those of an index, and any index that they start with is the one written.
pub proof fn law_written_mania_index_reads_back(
    written: ManiaBucketIndex,
    bytes: Seq<u8>,
    checksum: Seq<char>,
    read: ManiaBucketIndex,
)
    requires
        bytes == index_bytes(plain_index(written)),
        checksum == crate::checksum::hex_text(crate::checksum::sha256_digest(bytes)),
        countable(plain_index(written)),
        countable(plain_index(read)),
    ensures
        is_saved_checksum(bytes, checksum),
        crate::bytes::begins_with(bytes, index_bytes(plain_index(written))),
        has_families(plain_index(written)),
        crate::bytes::begins_with(bytes, index_bytes(plain_index(read))) ==> plain_index(read) == plain_index(
            written,
        ),
{
    crate::checksum::law_saved_checksum_is_accepted(bytes);
    let start = index_bytes(plain_index(written));
    assert(bytes.take(start.len() as int) =~= start);
    assert forall|b: int, e: int|
        0 <= b < plain_index(written).buckets.len() && 0 <= e < plain_index(
            written,
        ).buckets[b].entries.len() implies (
    #[trigger] plain_index(written).buckets[b].entries[e]).2 <= u8::MAX by {
        assert(plain_index(written).buckets[b] == plain_bucket(written.buckets@[b]));
        assert(plain_index(written).buckets[b].entries[e] == plain_entry(
            written.buckets@[b].entries@[e],
        ));
    }
    if crate::bytes::begins_with(bytes, index_bytes(plain_index(read))) {
        lemma_one_index(bytes, plain_index(read), plain_index(written));
    }
}

/// A file whose digest is not the one that the checksum was taken of is refused.
pub proof fn law_corrupt_mania_index_is_refused(written: Seq<u8>, bytes: Seq<u8>)
    requires
        crate::checksum::sha256_digest(bytes) != crate::checksum::sha256_digest(written),
    ensures
        !is_saved_checksum(
            bytes,
            crate::checksum::hex_text(crate::checksum::sha256_digest(written)),
        ),
{
    crate::checksum::law_saved_checksum_is_accepted(written);
    crate::checksum::law_checksum_tells_digests_apart(
        crate::checksum::sha256_digest(bytes),
        crate::checksum::sha256_digest(written),
    );
}

/// The plain numbers of an index leave nothing out: two indexes with the same ones agree in every
/// version, bucket and entry.
pub proof fn law_plain_indexes_leave_nothing_out(left: ManiaBucketIndex, right: ManiaBucketIndex)
    requires
        plain_index(left) == plain_index(right),
    ensures
        left.normalization_version == right.normalization_version,
        left.analyzer_version == right.analyzer_version,
        left.buckets@.len() == right.buckets@.len(),
        forall|b: int|
            0 <= b < left.buckets@.len() ==> {
                let one = #[trigger] left.buckets@[b];
                let other = right.buckets@[b];
                &&& one.key_count == other.key_count
                &&& one.difficulty_band == other.difficulty_band
                &&& one.entries@ == other.entries@
            },
{
    let a = plain_index(left).buckets;
    let c = plain_index(right).buckets;
    assert(a.len() == left.buckets@.len() && c.len() == right.buckets@.len());
    assert forall|b: int| 0 <= b < left.buckets@.len() implies {
        let one = #[trigger] left.buckets@[b];
        let other = right.buckets@[b];
        &&& one.key_count == other.key_count
        &&& one.difficulty_band == other.difficulty_band
        &&& one.entries@ == other.entries@
    } by {
        let one = left.buckets@[b];
        let other = right.buckets@[b];
        assert(a[b] == plain_bucket(one));
        assert(c[b] == plain_bucket(other));
        assert(plain_bucket(one).entries.len() == one.entries@.len());
        assert(plain_bucket(other).entries.len() == other.entries@.len());
        assert forall|e: int| 0 <= e < one.entries@.len() implies one.entries@[e]
            == other.entries@[e] by {
            assert(plain_bucket(one).entries[e] == plain_entry(one.entries@[e]));
            assert(plain_bucket(other).entries[e] == plain_entry(other.entries@[e]));
        }
        assert(one.entries@ =~= other.entries@);
    }
}

/// The numbers of an index in a file stand for its fields: of each bucket its key count and its
/// band, and of each entry its beatmap, its set, the code of its mode and its place.
pub proof fn law_plain_indexes_hold_the_fields(index: ManiaBucketIndex, b: int, e: int)
    requires
        0 <= b < index.buckets@.len(),
        0 <= e < index.buckets@[b].entries@.len(),
    ensures
        plain_index(index).normalization_version == index.normalization_version,
        plain_index(index).analyzer_version == index.analyzer_version,
        plain_index(index).buckets.len() == index.buckets@.len(),
        plain_index(index).buckets[b].key_count == index.buckets@[b].key_count,
        plain_index(index).buckets[b].difficulty_band == index.buckets@[b].difficulty_band,
        plain_index(index).buckets[b].entries.len() == index.buckets@[b].entries@.len(),
        plain_index(index).buckets[b].entries[e].0 == index.buckets@[b].entries@[e].beatmap_id,
        plain_index(index).buckets[b].entries[e].1 == index.buckets@[b].entries@[e].beatmapset_id,
        plain_index(index).buckets[b].entries[e].2
            == index.buckets@[b].entries@[e].mode_family.code,
        plain_index(index).buckets[b].entries[e].3
            == index.buckets@[b].entries@[e].normalized_offset,
{
}

/// The numbers of an index are written in the order of a tuple: the two versions, and the buckets,
/// each with its key count, its band and its entries.
pub proof fn law_indexes_are_written_in_order(
    fields: (u32, u32, Vec<(u8, u8, Vec<(u64, u64, u32, u64)>)>),
    b: int,
)
    requires
        0 <= b < fields.2@.len(),
    ensures
        tuple_index(fields).normalization_version == fields.0,
        tuple_index(fields).analyzer_version == fields.1,
        tuple_index(fields).buckets.len() == fields.2@.len(),
        tuple_index(fields).buckets[b].key_count == fields.2@[b].0,
        tuple_index(fields).buckets[b].difficulty_band == fields.2@[b].1,
        tuple_index(fields).buckets[b].entries == fields.2@[b].2@,
{
}

} // verus!
