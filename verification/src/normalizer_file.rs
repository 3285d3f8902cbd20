//! The files in which normalizers are kept.

use vstd::prelude::*;

use crate::float_bits::F32;
use crate::mania_normalizer::{KeyNormalizer, ManiaNormalizer, ManiaNormalizerError};
use crate::normalizer::Normalizer;

verus! {

/// The bits of the values.
pub open spec fn bits_of(values: Seq<F32>) -> Seq<u32> {
    Seq::new(values.len(), |i: int| values[i].bits)
}

fn bits_list(values: &Vec<F32>) -> (bits: Vec<u32>)
    ensures
        bits@ == bits_of(values@),
{
    let mut bits: Vec<u32> = Vec::new();
    let mut i: usize = 0;
    while i < values.len()
        invariant
            i <= values@.len(),
            bits@.len() == i,
            forall|k: int| 0 <= k < i ==> bits@[k] == values@[k].bits,
        decreases values@.len() - i,
    {
        bits.push(values[i].bits);
        i = i + 1;
    }
    assert(bits@ =~= bits_of(values@));
    bits
}

fn values_list(bits: &Vec<u32>) -> (values: Vec<F32>)
    ensures
        bits_of(values@) == bits@,
{
    let mut values: Vec<F32> = Vec::new();
    let mut i: usize = 0;
    while i < bits.len()
        invariant
            i <= bits@.len(),
            values@.len() == i,
            forall|k: int| 0 <= k < i ==> (#[trigger] values@[k]).bits == bits@[k],
        decreases bits@.len() - i,
    {
        values.push(F32::from_bits(bits[i]));
        i = i + 1;
    }
    assert(bits_of(values@) =~= bits@);
    values
}

/// Different values have different bits.
proof fn lemma_bits_injective(left: Seq<F32>, right: Seq<F32>)
    requires
        bits_of(left) == bits_of(right),
    ensures
        left == right,
{
    assert(bits_of(left).len() == left.len() && bits_of(right).len() == right.len());
    assert forall|i: int| 0 <= i < left.len() implies left[i] == right[i] by {
        assert(bits_of(left)[i] == left[i].bits);
        assert(bits_of(right)[i] == right[i].bits);
    }
    assert(left =~= right);
}

// The osu!standard normalizer

/// A normalizer as plain numbers.
pub struct PlainNormalizer {
    pub version: u32,
    pub quantiles: Seq<Seq<u32>>,
}

/// The normalizer as plain numbers.
pub open spec fn plain_normalizer(normalizer: Normalizer) -> PlainNormalizer {
    PlainNormalizer {
        version: normalizer.version,
        quantiles: Seq::new(5, |d: int| bits_of(normalizer.quantiles@[d]@)),
    }
}

/// A normalizer in bytes: its version, and the list of quantiles of each dimension.
pub open spec fn normalizer_bytes(normalizer: PlainNormalizer) -> Seq<u8> {
    crate::bytes::le_bytes(normalizer.version as nat, 4) + crate::bytes::lists_bytes(
        normalizer.quantiles,
    )
}

/// Whether a normalizer has the five dimensions, with lists whose lengths can be written down.
pub open spec fn is_writable(normalizer: PlainNormalizer) -> bool {
    normalizer.quantiles.len() == 5 && crate::bytes::countable_lists(normalizer.quantiles)
}

/// The normalizer in a tuple of its fields.
pub open spec fn tuple_normalizer(fields: (u32, [Vec<u32>; 5])) -> PlainNormalizer {
    PlainNormalizer { version: fields.0, quantiles: Seq::new(5, |d: int| fields.1@[d]@) }
}

/// `bincode::serialize` writes the values of a tuple or an array one after another, each integer
/// in its own number of bytes with the least significant one first, and in front of the items
/// of a vector their number in eight bytes. Into a vector of bytes and without a size limit it
/// never fails on them.
#[verifier::external_body]
fn serialize_normalizer(fields: &(u32, [Vec<u32>; 5])) -> (bytes: Result<
    Vec<u8>,
    Box<bincode::ErrorKind>,
>)
    ensures
        bytes matches Ok(bytes) && bytes@ == normalizer_bytes(tuple_normalizer(*fields)),
{
    bincode::serialize(fields)
}

/// `bincode::deserialize` reads what `bincode::serialize` writes for such a tuple, and leaves
/// bytes behind it alone. It fails exactly when the bytes do not start with what is written for
/// any tuple.
#[verifier::external_body]
fn deserialize_normalizer(bytes: &[u8]) -> (fields: Result<
    (u32, [Vec<u32>; 5]),
    Box<bincode::ErrorKind>,
>)
    ensures
        match fields {
            Ok(fields) => crate::bytes::begins_with(
                bytes@,
                normalizer_bytes(tuple_normalizer(fields)),
            ),
            Err(_) => forall|normalizer: PlainNormalizer| #[trigger]
                is_writable(normalizer) ==> !crate::bytes::begins_with(
                    bytes@,
                    normalizer_bytes(normalizer),
                ),
        },
{
    bincode::deserialize(bytes)
}

/// The bytes of a normalizer's file.
pub fn encode_normalizer(normalizer: &Normalizer) -> (bytes: Result<
    Vec<u8>,
    Box<bincode::ErrorKind>,
>)
    ensures
        bytes matches Ok(bytes) && bytes@ == normalizer_bytes(plain_normalizer(*normalizer)),
{
    let lists: [Vec<u32>; 5] = [
        bits_list(&normalizer.quantiles[0]),
        bits_list(&normalizer.quantiles[1]),
        bits_list(&normalizer.quantiles[2]),
        bits_list(&normalizer.quantiles[3]),
        bits_list(&normalizer.quantiles[4]),
    ];
    let fields: (u32, [Vec<u32>; 5]) = (normalizer.version, lists);
    assert(tuple_normalizer(fields).quantiles =~= plain_normalizer(*normalizer).quantiles);
    serialize_normalizer(&fields)
}

/// The normalizer in the bytes of its file, if they start with one.
pub fn decode_normalizer(bytes: &[u8]) -> (normalizer: Result<
    Normalizer,
    Box<bincode::ErrorKind>,
>)
    ensures
        match normalizer {
            Ok(normalizer) => crate::bytes::begins_with(
                bytes@,
                normalizer_bytes(plain_normalizer(normalizer)),
            ),
            Err(_) => forall|other: PlainNormalizer| #[trigger]
                is_writable(other) ==> !crate::bytes::begins_with(
                    bytes@,
                    normalizer_bytes(other),
                ),
        },
{
    let fields: (u32, [Vec<u32>; 5]) = match deserialize_normalizer(bytes) {
        Ok(fields) => fields,
        Err(error) => {
            return Err(error);
        },
    };
    let quantiles: [Vec<F32>; 5] = [
        values_list(&fields.1[0]),
        values_list(&fields.1[1]),
        values_list(&fields.1[2]),
        values_list(&fields.1[3]),
        values_list(&fields.1[4]),
    ];
    let normalizer: Normalizer = Normalizer { version: fields.0, quantiles };
    assert(tuple_normalizer(fields).quantiles =~= plain_normalizer(normalizer).quantiles);
    Ok(normalizer)
}

/// Bytes start with one normalizer at most.
proof fn lemma_one_normalizer(bytes: Seq<u8>, left: PlainNormalizer, right: PlainNormalizer)
    requires
        is_writable(left),
        is_writable(right),
        crate::bytes::begins_with(bytes, normalizer_bytes(left)),
        crate::bytes::begins_with(bytes, normalizer_bytes(right)),
    ensures
        left == right,
{
    let rest = bytes.skip(normalizer_bytes(left).len() as int);
    let other = bytes.skip(normalizer_bytes(right).len() as int);
    crate::bytes::lemma_start_and_rest(bytes, normalizer_bytes(left));
    crate::bytes::lemma_start_and_rest(bytes, normalizer_bytes(right));
    let a1 = crate::bytes::le_bytes(left.version as nat, 4);
    let b1 = crate::bytes::le_bytes(right.version as nat, 4);
    let a2 = crate::bytes::lists_bytes(left.quantiles) + rest;
    let b2 = crate::bytes::lists_bytes(right.quantiles) + other;
    assert(normalizer_bytes(left) + rest =~= a1 + a2);
    assert(normalizer_bytes(right) + other =~= b1 + b2);
    crate::bytes::lemma_fits_word(left.version as nat);
    crate::bytes::lemma_fits_word(right.version as nat);
    crate::bytes::lemma_number_first(left.version as nat, right.version as nat, 4, a2, b2);
    crate::bytes::lemma_lists_first(left.quantiles, right.quantiles, rest, other);
}

/// A normalizer that was saved is loaded back: the bytes of its file start with it, and any
/// normalizer that they start with has its version and its quantiles.
pub proof fn law_saved_normalizer_loads_back(
    saved: Normalizer,
    bytes: Seq<u8>,
    loaded: Normalizer,
)
    requires
        bytes == normalizer_bytes(plain_normalizer(saved)),
        is_writable(plain_normalizer(saved)),
        is_writable(plain_normalizer(loaded)),
    ensures
        crate::bytes::begins_with(bytes, normalizer_bytes(plain_normalizer(saved))),
        crate::bytes::begins_with(bytes, normalizer_bytes(plain_normalizer(loaded)))
            ==> loaded.version == saved.version && forall|d: int|
            0 <= d < 5 ==> (#[trigger] loaded.quantiles@[d])@ == saved.quantiles@[d]@,
{
    let start = normalizer_bytes(plain_normalizer(saved));
    assert(bytes.take(start.len() as int) =~= start);
    if crate::bytes::begins_with(bytes, normalizer_bytes(plain_normalizer(loaded))) {
        let a = plain_normalizer(loaded);
        let b = plain_normalizer(saved);
        lemma_one_normalizer(bytes, a, b);
        assert forall|d: int| 0 <= d < 5 implies (#[trigger] loaded.quantiles@[d])@
            == saved.quantiles@[d]@ by {
            assert(a.quantiles[d] == b.quantiles[d]);
            lemma_bits_injective(loaded.quantiles@[d]@, saved.quantiles@[d]@);
        }
    }
}

// The osu!mania normalizer

/// A cohort as plain numbers.
pub struct PlainKey {
    pub key_count: u8,
    pub axes: Seq<Seq<u32>>,
    pub overall: Seq<u32>,
}

/// A mania normalizer as plain numbers.
pub struct PlainManiaNormalizer {
    pub version: u32,
    pub analyzer_version: u32,
    pub keys: Seq<PlainKey>,
}

pub open spec fn plain_key(key: KeyNormalizer) -> PlainKey {
    PlainKey {
        key_count: key.key_count,
        axes: Seq::new(8, |d: int| bits_of(key.axes@[d]@)),
        overall: bits_of(key.overall@),
    }
}

/// The normalizer as plain numbers.
pub open spec fn plain_mania_normalizer(normalizer: ManiaNormalizer) -> PlainManiaNormalizer {
    PlainManiaNormalizer {
        version: normalizer.version,
        analyzer_version: normalizer.analyzer_version,
        keys: Seq::new(normalizer.keys@.len(), |i: int| plain_key(normalizer.keys@[i])),
    }
}

/// A cohort in bytes: its key count, the list of each axis, and that of overall intensities.
pub open spec fn key_bytes(key: PlainKey) -> Seq<u8> {
    seq![key.key_count] + crate::bytes::lists_bytes(key.axes) + crate::bytes::list_bytes(
        key.overall,
    )
}

pub open spec fn keys_bytes(keys: Seq<PlainKey>) -> Seq<u8>
    decreases keys.len(),
{
    if keys.len() == 0 {
        seq![]
    } else {
        key_bytes(keys[0]) + keys_bytes(keys.skip(1))
    }
}

/// A mania normalizer in bytes: its versions, how many cohorts it has, and those.
pub open spec fn mania_normalizer_bytes(normalizer: PlainManiaNormalizer) -> Seq<u8> {
    crate::bytes::le_bytes(normalizer.version as nat, 4) + crate::bytes::le_bytes(
        normalizer.analyzer_version as nat,
        4,
    ) + crate::bytes::le_bytes(normalizer.keys.len(), 8) + keys_bytes(normalizer.keys)
}

/// Whether a cohort has the eight axes, with lists whose lengths can be written down.
pub open spec fn is_key_writable(key: PlainKey) -> bool {
    key.axes.len() == 8 && crate::bytes::countable_lists(key.axes) && key.overall.len() <= u64::MAX
}

/// Whether all cohorts can be written down.
pub open spec fn is_mania_writable(normalizer: PlainManiaNormalizer) -> bool {
    normalizer.keys.len() <= u64::MAX && forall|i: int|
        0 <= i < normalizer.keys.len() ==> is_key_writable(#[trigger] normalizer.keys[i])
}

pub open spec fn tuple_key(fields: (u8, [Vec<u32>; 8], Vec<u32>)) -> PlainKey {
    PlainKey {
        key_count: fields.0,
        axes: Seq::new(8, |d: int| fields.1@[d]@),
        overall: fields.2@,
    }
}

/// The mania normalizer in a tuple of its fields.
pub open spec fn tuple_mania_normalizer(
    fields: (u32, u32, Vec<(u8, [Vec<u32>; 8], Vec<u32>)>),
) -> PlainManiaNormalizer {
    PlainManiaNormalizer {
        version: fields.0,
        analyzer_version: fields.1,
        keys: Seq::new(fields.2@.len(), |i: int| tuple_key(fields.2@[i])),
    }
}

/// `bincode::serialize`, as in `serialize_normalizer`, of the fields of a mania normalizer.
#[verifier::external_body]
fn serialize_mania_normalizer(fields: &(u32, u32, Vec<(u8, [Vec<u32>; 8], Vec<u32>)>)) -> (bytes:
    Result<Vec<u8>, Box<bincode::ErrorKind>>)
    ensures
        bytes matches Ok(bytes) && bytes@ == mania_normalizer_bytes(
            tuple_mania_normalizer(*fields),
        ),
{
    bincode::serialize(fields)
}

/// `bincode::deserialize`, as in `deserialize_normalizer`, of the fields of a mania normalizer.
#[verifier::external_body]
fn deserialize_mania_normalizer(bytes: &[u8]) -> (fields: Result<
    (u32, u32, Vec<(u8, [Vec<u32>; 8], Vec<u32>)>),
    Box<bincode::ErrorKind>,
>)
    ensures
        match fields {
            Ok(fields) => crate::bytes::begins_with(
                bytes@,
                mania_normalizer_bytes(tuple_mania_normalizer(fields)),
            ),
            Err(_) => forall|normalizer: PlainManiaNormalizer| #[trigger]
                is_mania_writable(normalizer) ==> !crate::bytes::begins_with(
                    bytes@,
                    mania_normalizer_bytes(normalizer),
                ),
        },
{
    bincode::deserialize(bytes)
}

fn axes_lists(axes: &[Vec<F32>; 8]) -> (lists: [Vec<u32>; 8])
    ensures
        forall|d: int| 0 <= d < 8 ==> (#[trigger] lists@[d])@ == bits_of(axes@[d]@),
{
    let lists: [Vec<u32>; 8] = [
        bits_list(&axes[0]),
        bits_list(&axes[1]),
        bits_list(&axes[2]),
        bits_list(&axes[3]),
        bits_list(&axes[4]),
        bits_list(&axes[5]),
        bits_list(&axes[6]),
        bits_list(&axes[7]),
    ];
    lists
}

fn axes_values(lists: &[Vec<u32>; 8]) -> (axes: [Vec<F32>; 8])
    ensures
        forall|d: int| 0 <= d < 8 ==> bits_of((#[trigger] axes@[d])@) == lists@[d]@,
{
    let axes: [Vec<F32>; 8] = [
        values_list(&lists[0]),
        values_list(&lists[1]),
        values_list(&lists[2]),
        values_list(&lists[3]),
        values_list(&lists[4]),
        values_list(&lists[5]),
        values_list(&lists[6]),
        values_list(&lists[7]),
    ];
    axes
}

/// The bytes of a mania normalizer's file.
pub fn encode_mania_normalizer(normalizer: &ManiaNormalizer) -> (bytes: Result<
    Vec<u8>,
    Box<bincode::ErrorKind>,
>)
    ensures
        bytes matches Ok(bytes) && bytes@ == mania_normalizer_bytes(
            plain_mania_normalizer(*normalizer),
        ),
{
    let mut keys: Vec<(u8, [Vec<u32>; 8], Vec<u32>)> = Vec::new();
    let mut i: usize = 0;
    while i < normalizer.keys.len()
        invariant
            i <= normalizer.keys@.len(),
            keys@.len() == i,
            forall|k: int| 0 <= k < i ==> tuple_key(keys@[k]) == plain_key(normalizer.keys@[k]),
        decreases normalizer.keys@.len() - i,
    {
        let key: &KeyNormalizer = &normalizer.keys[i];
        let fields: (u8, [Vec<u32>; 8], Vec<u32>) = (
            key.key_count,
            axes_lists(&key.axes),
            bits_list(&key.overall),
        );
        assert(tuple_key(fields).axes =~= plain_key(*key).axes);
        keys.push(fields);
        i = i + 1;
    }
    let fields: (u32, u32, Vec<(u8, [Vec<u32>; 8], Vec<u32>)>) = (
        normalizer.version,
        normalizer.analyzer_version,
        keys,
    );
    assert(tuple_mania_normalizer(fields).keys =~= plain_mania_normalizer(*normalizer).keys);
    serialize_mania_normalizer(&fields)
}

/// Why a file does not give the mania normalizer of a version.
pub enum ManiaLoadError {
    /// The file does not hold a normalizer.
    Format { error: Box<bincode::ErrorKind> },
    /// The normalizer is of another version.
    Version { error: ManiaNormalizerError },
}

/// The mania normalizer of `version` in the bytes of its file, if they start with one that is of
/// that version and of the active analyzer.
pub fn decode_mania_normalizer(bytes: &[u8], version: u32) -> (normalizer: Result<
    ManiaNormalizer,
    ManiaLoadError,
>)
    ensures
        match normalizer {
            Ok(normalizer) => crate::bytes::begins_with(
                bytes@,
                mania_normalizer_bytes(plain_mania_normalizer(normalizer)),
            ) && normalizer.version == version && normalizer.analyzer_version
                == crate::mania::MANIA_ANALYZER_VERSION,
            Err(ManiaLoadError::Version { error }) => error == ManiaNormalizerError::StoredVersion
                && exists|other: PlainManiaNormalizer| #[trigger]
                is_mania_writable(other) && crate::bytes::begins_with(
                    bytes@,
                    mania_normalizer_bytes(other),
                ) && (other.version != version || other.analyzer_version
                    != crate::mania::MANIA_ANALYZER_VERSION),
            Err(ManiaLoadError::Format { .. }) => forall|other: PlainManiaNormalizer| #[trigger]
                is_mania_writable(other) ==> !crate::bytes::begins_with(
                    bytes@,
                    mania_normalizer_bytes(other),
                ),
        },
{
    let fields: (u32, u32, Vec<(u8, [Vec<u32>; 8], Vec<u32>)>) = match deserialize_mania_normalizer(
        bytes,
    ) {
        Ok(fields) => fields,
        Err(error) => {
            return Err(ManiaLoadError::Format { error });
        },
    };
    let mut keys: Vec<KeyNormalizer> = Vec::new();
    let mut i: usize = 0;
    while i < fields.2.len()
        invariant
            i <= fields.2@.len(),
            keys@.len() == i,
            forall|k: int| 0 <= k < i ==> tuple_key(fields.2@[k]) == plain_key(#[trigger] keys@[k]),
        decreases fields.2@.len() - i,
    {
        let key: KeyNormalizer = KeyNormalizer {
            key_count: fields.2[i].0,
            axes: axes_values(&fields.2[i].1),
            overall: values_list(&fields.2[i].2),
        };
        assert(tuple_key(fields.2@[i as int]).axes =~= plain_key(key).axes);
        keys.push(key);
        i = i + 1;
    }
    let normalizer: ManiaNormalizer = ManiaNormalizer {
        version: fields.0,
        analyzer_version: fields.1,
        keys,
    };
    proof {
        assert(tuple_mania_normalizer(fields).keys =~= plain_mania_normalizer(normalizer).keys);
        lemma_tuple_is_writable(fields);
    }
    match normalizer.accept_loaded(version) {
        Ok(normalizer) => Ok(normalizer),
        Err(error) => {
            assert(is_mania_writable(tuple_mania_normalizer(fields)));
            Err(ManiaLoadError::Version { error })
        },
    }
}

proof fn lemma_tuple_is_writable(fields: (u32, u32, Vec<(u8, [Vec<u32>; 8], Vec<u32>)>))
    ensures
        is_mania_writable(tuple_mania_normalizer(fields)),
{
    let plain = tuple_mania_normalizer(fields);
    assert(fields.2@.len() == fields.2.len());
    assert forall|i: int| 0 <= i < plain.keys.len() implies is_key_writable(
        #[trigger] plain.keys[i],
    ) by {
        let key = fields.2@[i];
        assert(key.2@.len() == key.2.len());
        assert forall|d: int| 0 <= d < plain.keys[i].axes.len() implies (
        #[trigger] plain.keys[i].axes[d]).len() <= u64::MAX by {
            assert(key.1@[d]@.len() == key.1@[d].len());
        }
    }
}

proof fn lemma_key_first(left: PlainKey, right: PlainKey, rest: Seq<u8>, other: Seq<u8>)
    requires
        is_key_writable(left),
        is_key_writable(right),
        key_bytes(left) + rest == key_bytes(right) + other,
    ensures
        left == right,
        rest == other,
{
    let a1 = seq![left.key_count];
    let b1 = seq![right.key_count];
    let a3 = crate::bytes::list_bytes(left.overall) + rest;
    let b3 = crate::bytes::list_bytes(right.overall) + other;
    let a2 = crate::bytes::lists_bytes(left.axes) + a3;
    let b2 = crate::bytes::lists_bytes(right.axes) + b3;
    assert(key_bytes(left) + rest =~= a1 + a2);
    assert(key_bytes(right) + other =~= b1 + b2);
    assert((a1 + a2)[0] == left.key_count);
    assert((b1 + b2)[0] == right.key_count);
    assert(a2 =~= (a1 + a2).skip(1));
    assert(b2 =~= (b1 + b2).skip(1));
    crate::bytes::lemma_lists_first(left.axes, right.axes, a3, b3);
    crate::bytes::lemma_list_first(left.overall, right.overall, rest, other);
}

proof fn lemma_keys_first(
    left: Seq<PlainKey>,
    right: Seq<PlainKey>,
    rest: Seq<u8>,
    other: Seq<u8>,
)
    requires
        left.len() == right.len(),
        forall|i: int| 0 <= i < left.len() ==> is_key_writable(#[trigger] left[i]),
        forall|i: int| 0 <= i < right.len() ==> is_key_writable(#[trigger] right[i]),
        keys_bytes(left) + rest == keys_bytes(right) + other,
    ensures
        left == right,
        rest == other,
    decreases left.len(),
{
    if left.len() == 0 {
        assert(left =~= right);
        assert(keys_bytes(left) + rest =~= rest);
        assert(keys_bytes(right) + other =~= other);
    } else {
        let a = keys_bytes(left.skip(1));
        let b = keys_bytes(right.skip(1));
        assert(keys_bytes(left) + rest =~= key_bytes(left[0]) + (a + rest));
        assert(keys_bytes(right) + other =~= key_bytes(right[0]) + (b + other));
        assert(is_key_writable(left[0]) && is_key_writable(right[0]));
        lemma_key_first(left[0], right[0], a + rest, b + other);
        lemma_keys_first(left.skip(1), right.skip(1), rest, other);
        assert forall|i: int| 0 <= i < left.len() implies left[i] == right[i] by {
            if i > 0 {
                assert(left.skip(1)[i - 1] == right.skip(1)[i - 1]);
            }
        }
        assert(left =~= right);
    }
}

/// Bytes start with one mania normalizer at most.
proof fn lemma_one_mania_normalizer(
    bytes: Seq<u8>,
    left: PlainManiaNormalizer,
    right: PlainManiaNormalizer,
)
    requires
        is_mania_writable(left),
        is_mania_writable(right),
        crate::bytes::begins_with(bytes, mania_normalizer_bytes(left)),
        crate::bytes::begins_with(bytes, mania_normalizer_bytes(right)),
    ensures
        left == right,
{
    let rest = bytes.skip(mania_normalizer_bytes(left).len() as int);
    let other = bytes.skip(mania_normalizer_bytes(right).len() as int);
    crate::bytes::lemma_start_and_rest(bytes, mania_normalizer_bytes(left));
    crate::bytes::lemma_start_and_rest(bytes, mania_normalizer_bytes(right));
    let a1 = crate::bytes::le_bytes(left.version as nat, 4);
    let a2 = crate::bytes::le_bytes(left.analyzer_version as nat, 4);
    let a3 = crate::bytes::le_bytes(left.keys.len(), 8);
    let a4 = keys_bytes(left.keys) + rest;
    let b1 = crate::bytes::le_bytes(right.version as nat, 4);
    let b2 = crate::bytes::le_bytes(right.analyzer_version as nat, 4);
    let b3 = crate::bytes::le_bytes(right.keys.len(), 8);
    let b4 = keys_bytes(right.keys) + other;
    crate::bytes::lemma_regrouped(a1, a2, a3, keys_bytes(left.keys), rest);
    crate::bytes::lemma_regrouped(b1, b2, b3, keys_bytes(right.keys), other);
    crate::bytes::lemma_fits_word(left.version as nat);
    crate::bytes::lemma_fits_word(right.version as nat);
    crate::bytes::lemma_fits_word(left.analyzer_version as nat);
    crate::bytes::lemma_fits_word(right.analyzer_version as nat);
    crate::bytes::lemma_fits_long(left.keys.len());
    crate::bytes::lemma_fits_long(right.keys.len());
    crate::bytes::lemma_number_first(
        left.version as nat,
        right.version as nat,
        4,
        a2 + (a3 + a4),
        b2 + (b3 + b4),
    );
    crate::bytes::lemma_number_first(
        left.analyzer_version as nat,
        right.analyzer_version as nat,
        4,
        a3 + a4,
        b3 + b4,
    );
    crate::bytes::lemma_number_first(left.keys.len(), right.keys.len(), 8, a4, b4);
    lemma_keys_first(left.keys, right.keys, rest, other);
}

/// Fitting the same records again under the same version succeeds as it did the first time and
/// gives the same file, byte for byte, whatever intensity the ranks of a record give. Every raw
/// record is then refused for the same reason or normalized alike. `right` is what the second
/// fitting gives where it does not refuse.
pub proof fn law_refitting_is_deterministic(
    records: Seq<crate::mania::ManiaRawFeatureRecord>,
    version: u32,
    left: ManiaNormalizer,
    left_intensities: Seq<F32>,
    right: ManiaNormalizer,
    right_intensities: Seq<F32>,
    share: spec_fn(crate::mania_normalizer::Midrank) -> F32,
    overall: spec_fn(Seq<crate::mania_normalizer::Midrank>) -> F32,
    band: spec_fn(F32) -> u8,
)
    requires
        crate::mania_normalizer::fit_refusal(records, version) is None,
        crate::mania_normalizer::is_fitted(left, records, left_intensities, version),
        crate::mania_normalizer::are_intensities(left_intensities, left.keys@, records, overall),
        crate::mania_normalizer::fit_refusal(records, version) is None
            ==> crate::mania_normalizer::is_fitted(right, records, right_intensities, version)
            && crate::mania_normalizer::are_intensities(
            right_intensities,
            right.keys@,
            records,
            overall,
        ),
    ensures
        crate::mania_normalizer::is_fitted(right, records, right_intensities, version),
        left_intensities == right_intensities,
        plain_mania_normalizer(left) == plain_mania_normalizer(right),
        mania_normalizer_bytes(plain_mania_normalizer(left)) == mania_normalizer_bytes(
            plain_mania_normalizer(right),
        ),
        forall|raw: crate::mania::ManiaRawFeatureRecord| #[trigger]
            crate::mania_normalizer::transform_refusal(left, raw)
                == crate::mania_normalizer::transform_refusal(right, raw) && (
            crate::mania_normalizer::transform_refusal(left, raw) is None
                ==> crate::mania_normalizer::normalized_by(left, raw, share, overall, band)
                == crate::mania_normalizer::normalized_by(right, raw, share, overall, band)),
{
    assert forall|raw: crate::mania::ManiaRawFeatureRecord| #[trigger]
        crate::mania_normalizer::transform_refusal(left, raw)
            == crate::mania_normalizer::transform_refusal(right, raw) && (
        crate::mania_normalizer::transform_refusal(left, raw) is None
            ==> crate::mania_normalizer::normalized_by(left, raw, share, overall, band)
            == crate::mania_normalizer::normalized_by(right, raw, share, overall, band)) by {
        crate::mania_normalizer::law_refitted_normalizers_normalize_alike(
            records,
            version,
            left,
            left_intensities,
            right,
            right_intensities,
            share,
            overall,
            band,
            raw,
        );
    }
    crate::mania_normalizer::law_refitted_normalizers_normalize_alike(
        records,
        version,
        left,
        left_intensities,
        right,
        right_intensities,
        share,
        overall,
        band,
        records[0],
    );
    crate::mania_normalizer::law_refitting_gives_the_same_cohorts(
        records,
        left_intensities,
        version,
        left,
        right,
    );
    assert forall|i: int| 0 <= i < left.keys@.len() implies plain_key(#[trigger] left.keys@[i])
        == plain_key(right.keys@[i]) by {
        assert(left.keys@[i].key_count == right.keys@[i].key_count);
        assert(plain_key(left.keys@[i]).axes =~= plain_key(right.keys@[i]).axes) by {
            assert forall|d: int| 0 <= d < 8 implies bits_of(#[trigger] left.keys@[i].axes@[d]@)
                == bits_of(right.keys@[i].axes@[d]@) by {
                assert(left.keys@[i].axes@[d]@ == right.keys@[i].axes@[d]@);
            }
        }
    }
    assert(plain_mania_normalizer(left).keys =~= plain_mania_normalizer(right).keys);
}

/// A mania normalizer that was saved is loaded back: the bytes of its file start with it, and
/// any normalizer that they start with has the same plain numbers.
pub proof fn law_saved_mania_normalizer_loads_back(
    saved: ManiaNormalizer,
    bytes: Seq<u8>,
    loaded: ManiaNormalizer,
)
    requires
        bytes == mania_normalizer_bytes(plain_mania_normalizer(saved)),
        is_mania_writable(plain_mania_normalizer(saved)),
        is_mania_writable(plain_mania_normalizer(loaded)),
    ensures
        crate::bytes::begins_with(bytes, mania_normalizer_bytes(plain_mania_normalizer(saved))),
        crate::bytes::begins_with(bytes, mania_normalizer_bytes(plain_mania_normalizer(loaded)))
            ==> plain_mania_normalizer(loaded) == plain_mania_normalizer(saved),
{
    let start = mania_normalizer_bytes(plain_mania_normalizer(saved));
    assert(bytes.take(start.len() as int) =~= start);
    if crate::bytes::begins_with(bytes, mania_normalizer_bytes(plain_mania_normalizer(loaded))) {
        lemma_one_mania_normalizer(
            bytes,
            plain_mania_normalizer(loaded),
            plain_mania_normalizer(saved),
        );
    }
}

/// The plain numbers of normalizers leave nothing out: two normalizers with the same ones agree in
/// every version, quantile, axis and intensity.
pub proof fn law_plain_normalizers_leave_nothing_out(
    left: ManiaNormalizer,
    right: ManiaNormalizer,
    first: Normalizer,
    second: Normalizer,
)
    requires
        plain_mania_normalizer(left) == plain_mania_normalizer(right),
        plain_normalizer(first) == plain_normalizer(second),
    ensures
        first.version == second.version,
        forall|d: int|
            0 <= d < 5 ==> (#[trigger] first.quantiles@[d])@ == second.quantiles@[d]@,
        left.version == right.version,
        left.analyzer_version == right.analyzer_version,
        left.keys@.len() == right.keys@.len(),
        forall|i: int|
            0 <= i < left.keys@.len() ==> (#[trigger] left.keys@[i]).key_count
                == right.keys@[i].key_count && left.keys@[i].overall@ == right.keys@[i].overall@,
        forall|i: int, d: int|
            0 <= i < left.keys@.len() && 0 <= d < 8 ==> (#[trigger] left.keys@[i].axes@[d])@
                == right.keys@[i].axes@[d]@,
{
    let a = plain_mania_normalizer(left).keys;
    let b = plain_mania_normalizer(right).keys;
    assert(a.len() == left.keys@.len() && b.len() == right.keys@.len());
    assert forall|d: int| 0 <= d < 5 implies (#[trigger] first.quantiles@[d])@
        == second.quantiles@[d]@ by {
        assert(plain_normalizer(first).quantiles[d] == bits_of(first.quantiles@[d]@));
        assert(plain_normalizer(second).quantiles[d] == bits_of(second.quantiles@[d]@));
        lemma_bits_tell_apart(first.quantiles@[d]@, second.quantiles@[d]@);
    }
    assert forall|i: int| 0 <= i < left.keys@.len() implies (#[trigger] left.keys@[i]).key_count
        == right.keys@[i].key_count && left.keys@[i].overall@ == right.keys@[i].overall@ by {
        assert(a[i] == plain_key(left.keys@[i]));
        assert(b[i] == plain_key(right.keys@[i]));
        lemma_bits_tell_apart(left.keys@[i].overall@, right.keys@[i].overall@);
    }
    assert forall|i: int, d: int| 0 <= i < left.keys@.len() && 0 <= d < 8 implies (
    #[trigger] left.keys@[i].axes@[d])@ == right.keys@[i].axes@[d]@ by {
        assert(a[i] == plain_key(left.keys@[i]));
        assert(b[i] == plain_key(right.keys@[i]));
        assert(a[i].axes[d] == bits_of(left.keys@[i].axes@[d]@));
        assert(b[i].axes[d] == bits_of(right.keys@[i].axes@[d]@));
        lemma_bits_tell_apart(left.keys@[i].axes@[d]@, right.keys@[i].axes@[d]@);
    }
}

proof fn lemma_bits_tell_apart(left: Seq<F32>, right: Seq<F32>)
    requires
        bits_of(left) == bits_of(right),
    ensures
        left == right,
{
    assert(bits_of(left).len() == left.len() && bits_of(right).len() == right.len());
    assert forall|i: int| 0 <= i < left.len() implies left[i] == right[i] by {
        assert(bits_of(left)[i] == left[i].bits);
        assert(bits_of(right)[i] == right[i].bits);
    }
    assert(left =~= right);
}

/// The numbers of normalizers in a file stand for their fields: every value by its bits, in the
/// list of its dimension or axis.
pub proof fn law_plain_normalizers_hold_the_fields(
    normalizer: Normalizer,
    mania: ManiaNormalizer,
    d: int,
    k: int,
    i: int,
)
    requires
        0 <= k < mania.keys@.len(),
    ensures
        plain_normalizer(normalizer).version == normalizer.version,
        plain_normalizer(normalizer).quantiles.len() == 5,
        0 <= d < 5 ==> plain_normalizer(normalizer).quantiles[d].len()
            == normalizer.quantiles@[d]@.len(),
        0 <= d < 5 && 0 <= i < normalizer.quantiles@[d]@.len() ==> plain_normalizer(
            normalizer,
        ).quantiles[d][i] == normalizer.quantiles@[d]@[i].bits,
        plain_mania_normalizer(mania).version == mania.version,
        plain_mania_normalizer(mania).analyzer_version == mania.analyzer_version,
        plain_mania_normalizer(mania).keys.len() == mania.keys@.len(),
        plain_mania_normalizer(mania).keys[k].key_count == mania.keys@[k].key_count,
        plain_mania_normalizer(mania).keys[k].axes.len() == 8,
        0 <= d < 8 ==> plain_mania_normalizer(mania).keys[k].axes[d].len()
            == mania.keys@[k].axes@[d]@.len(),
        0 <= d < 8 && 0 <= i < mania.keys@[k].axes@[d]@.len() ==> plain_mania_normalizer(
            mania,
        ).keys[k].axes[d][i] == mania.keys@[k].axes@[d]@[i].bits,
        plain_mania_normalizer(mania).keys[k].overall.len() == mania.keys@[k].overall@.len(),
        0 <= i < mania.keys@[k].overall@.len() ==> plain_mania_normalizer(mania).keys[k].overall[i]
            == mania.keys@[k].overall@[i].bits,
{
}

/// The numbers of normalizers are written in the order of a tuple: the versions, and the lists.
pub proof fn law_normalizers_are_written_in_order(
    fields: (u32, [Vec<u32>; 5]),
    mania: (u32, u32, Vec<(u8, [Vec<u32>; 8], Vec<u32>)>),
    d: int,
    k: int,
)
    requires
        0 <= k < mania.2@.len(),
    ensures
        tuple_normalizer(fields).version == fields.0,
        tuple_normalizer(fields).quantiles.len() == 5,
        0 <= d < 5 ==> tuple_normalizer(fields).quantiles[d] == fields.1@[d]@,
        tuple_mania_normalizer(mania).version == mania.0,
        tuple_mania_normalizer(mania).analyzer_version == mania.1,
        tuple_mania_normalizer(mania).keys.len() == mania.2@.len(),
        tuple_mania_normalizer(mania).keys[k].key_count == mania.2@[k].0,
        tuple_mania_normalizer(mania).keys[k].axes.len() == 8,
        0 <= d < 8 ==> tuple_mania_normalizer(mania).keys[k].axes[d] == mania.2@[k].1@[d]@,
        tuple_mania_normalizer(mania).keys[k].overall == mania.2@[k].2@,
{
}

} // verus!
