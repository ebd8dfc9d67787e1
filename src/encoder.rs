//! The attribute identifier schema, the encoding of attribute values into integers and
//! bitmasks, threshold ladders, and the compilation of merged requirements into
//! fixed-width bit-string keys.
use vstd::prelude::*;

use crate::entity::{
    AttrVal, AttributeValue, DestinationEntity, DestinationEntityAttributeKey, SourceEntity,
    SourceEntityAttributeKey, assoc, dst_key_name, lemma_assoc_end, lemma_assoc_start,
    lemma_assoc_step, src_key_name, src_key_of,
};
use crate::requirements::{MergedRequirements, MergedVal};
use crate::text::str_eq;
use crate::error::{AbacError, ErrorKind};
use crate::text::{find_named, find_named_index, first_named};

verus! {

broadcast use vstd::std_specs::vec::group_vec_axioms, vstd::seq::group_seq_axioms;

/// How an attribute's values are encoded.
#[derive(Debug, Clone, Copy, PartialEq, Eq, Structural)]
pub enum AttrValueType {
    /// One categorical value, encoded as its identifier.
    Single,
    /// A set of categorical values, encoded as a bitmask of identifiers.
    Multiple,
    /// An integer, optionally bounded.
    Numeric,
}

/// The schema of one attribute: its encoding, its value identifiers (categorical
/// attributes) or its inclusive bounds (numeric attributes).
#[derive(Debug, Clone)]
pub struct AttrIdEntry {
    pub value_type: AttrValueType,
    /// Pairs of a value and its identifier; the first pair for a value counts.
    pub value_to_id: Option<Vec<(String, u32)>>,
    pub numeric_min: Option<i64>,
    pub numeric_max: Option<i64>,
}

/// The attribute identifier schema, keyed by qualified attribute name.
#[derive(Debug, Clone)]
pub struct AttrIdMap {
    /// Pairs of an attribute name and its entry; the first pair for a name counts.
    pub entries: Vec<(String, AttrIdEntry)>,
}

/// The mathematical value of an [`EncodedAttributeValue`].
pub enum EncVal {
    Single(u32),
    Multiple(Seq<u32>),
    Num(i64),
}

/// An attribute value encoded against the schema.
#[derive(Debug, Clone, PartialEq)]
pub enum EncodedAttributeValue {
    SingleId(u32),
    MultipleIds(Vec<u32>),
    Numeric(i64),
}

impl View for EncodedAttributeValue {
    type V = EncVal;

    open spec fn view(&self) -> EncVal {
        match self {
            EncodedAttributeValue::SingleId(id) => EncVal::Single(*id),
            EncodedAttributeValue::MultipleIds(ids) => EncVal::Multiple(ids@),
            EncodedAttributeValue::Numeric(n) => EncVal::Num(*n),
        }
    }
}

/// An encoding result, with errors reduced to their class.
pub open spec fn enc_of(r: Result<EncodedAttributeValue, AbacError>) -> Result<EncVal, ErrorKind> {
    match r {
        Ok(v) => Ok(v@),
        Err(e) => Err(e.kind()),
    }
}

/// A `u32` result, with errors reduced to their class.
pub open spec fn word_of(r: Result<u32, AbacError>) -> Result<u32, ErrorKind> {
    match r {
        Ok(v) => Ok(v),
        Err(e) => Err(e.kind()),
    }
}

impl AttrIdMap {
    /// The entry of attribute `attr`.
    pub open spec fn entry(&self, attr: Seq<char>) -> Option<AttrIdEntry> {
        find_named(self.entries@, attr)
    }

    /// The identifier of `value` for attribute `attr`.
    pub open spec fn id_of(&self, attr: Seq<char>, value: Seq<char>) -> Option<u32> {
        match self.entry(attr) {
            Some(e) => match e.value_to_id {
                Some(t) => find_named(t@, value),
                None => None,
            },
            None => None,
        }
    }

    /// Finds the entry of attribute `attr_name`.
    pub fn get_entry(&self, attr_name: &str) -> (r: Option<&AttrIdEntry>)
        ensures
            match r {
                Some(e) => self.entry(attr_name@) == Some(*e),
                None => self.entry(attr_name@) is None,
            },
    {
        match find_named_index(&self.entries, attr_name) {
            Some(i) => Some(&self.entries[i].1),
            None => None,
        }
    }

    /// The identifier of `value` for attribute `attr_name`; `UnknownKey` when the
    /// attribute, its identifier table or the value is absent.
    pub fn value_to_id(&self, attr_name: &str, value: &str) -> (r: Result<u32, AbacError>)
        ensures
            match r {
                Ok(id) => self.id_of(attr_name@, value@) == Some(id),
                Err(e) => self.id_of(attr_name@, value@) is None && e is UnknownKey,
            },
    {
        let entry = match self.get_entry(attr_name) {
            Some(e) => e,
            None => {
                return Err(AbacError::UnknownKey(attr_name.to_string()));
            },
        };
        let table = match &entry.value_to_id {
            Some(t) => t,
            None => {
                return Err(AbacError::UnknownKey(attr_name.to_string()));
            },
        };
        match find_named_index(table, value) {
            Some(i) => Ok(table[i].1),
            None => Err(AbacError::UnknownKey(value.to_string())),
        }
    }
}

/// The identifiers of every member of `members`, or `None` if one has none.
pub open spec fn ids_of(m: AttrIdMap, attr: Seq<char>, members: Seq<Seq<char>>) -> Option<Seq<u32>>
    decreases members.len(),
{
    if members.len() == 0 {
        Some(Seq::empty())
    } else {
        match ids_of(m, attr, members.drop_last()) {
            None => None,
            Some(ids) => match m.id_of(attr, members.last()) {
                Some(id) => Some(ids.push(id)),
                None => None,
            },
        }
    }
}

/// `n` lies within the optional inclusive bounds.
pub open spec fn within_bounds(n: i64, min: Option<i64>, max: Option<i64>) -> bool {
    (min matches Some(lo) ==> lo <= n) && (max matches Some(hi) ==> n <= hi)
}

/// Encodes value `v` of attribute `attr` against the schema.
pub open spec fn encode(m: AttrIdMap, attr: Seq<char>, v: AttrVal) -> Result<EncVal, ErrorKind> {
    match m.entry(attr) {
        None => Err(ErrorKind::UnknownKey),
        Some(e) => match (e.value_type, v) {
            (AttrValueType::Single, AttrVal::Str(s)) => match m.id_of(attr, s) {
                Some(id) => Ok(EncVal::Single(id)),
                None => Err(ErrorKind::UnknownKey),
            },
            (AttrValueType::Numeric, AttrVal::Num(n)) => if within_bounds(
                n,
                e.numeric_min,
                e.numeric_max,
            ) {
                Ok(EncVal::Num(n))
            } else {
                Err(ErrorKind::Range)
            },
            (AttrValueType::Multiple, AttrVal::Strings(members)) => match ids_of(m, attr, members) {
                Some(ids) => Ok(EncVal::Multiple(ids)),
                None => Err(ErrorKind::UnknownKey),
            },
            _ => Err(ErrorKind::TypeMismatch),
        },
    }
}

proof fn lemma_ids_of_prefix_none(m: AttrIdMap, attr: Seq<char>, members: Seq<Seq<char>>, j: int)
    requires
        0 <= j <= members.len(),
        ids_of(m, attr, members.take(j)) is None,
    ensures
        ids_of(m, attr, members) is None,
    decreases members.len() - j,
{
    if j < members.len() {
        assert(members.take(j + 1).drop_last() =~= members.take(j));
        lemma_ids_of_prefix_none(m, attr, members, j + 1);
    } else {
        assert(members.take(j) =~= members);
    }
}

/// How the schema names a value type.
pub open spec fn type_word(t: AttrValueType) -> Seq<char> {
    match t {
        AttrValueType::Single => "single"@,
        AttrValueType::Multiple => "multiple"@,
        AttrValueType::Numeric => "numeric"@,
    }
}

/// The shape of an attribute value, in words.
pub open spec fn shape_word(v: AttrVal) -> Seq<char> {
    match v {
        AttrVal::Str(_) => "string"@,
        AttrVal::Num(_) => "number"@,
        AttrVal::Strings(_) => "set"@,
        AttrVal::Bool(_) => "boolean"@,
    }
}

/// The text of a type mismatch: the attribute, the type it expects and the shape given.
pub open spec fn mismatch_text(attr: Seq<char>, t: AttrValueType, v: AttrVal) -> Seq<char> {
    "type mismatch: attribute "@ + attr + " expects "@ + type_word(t) + ", got "@ + shape_word(v)
}

fn mismatch_message(attr: &str, t: AttrValueType, v: &AttributeValue) -> (r: String)
    ensures
        r@ == mismatch_text(attr@, t, v@),
{
    let expected = match t {
        AttrValueType::Single => "single",
        AttrValueType::Multiple => "multiple",
        AttrValueType::Numeric => "numeric",
    };
    let given = match v {
        AttributeValue::String(_) => "string",
        AttributeValue::Number(_) => "number",
        AttributeValue::StringSet(_) => "set",
        AttributeValue::Boolean(_) => "boolean",
    };
    let mut out = String::from_str("type mismatch: attribute ");
    out.append(attr);
    out.append(" expects ");
    out.append(expected);
    out.append(", got ");
    out.append(given);
    out
}

/// Encodes `v` as the schema declares attribute `attr_name`: a string of a single-valued
/// attribute as its identifier, a number of a numeric attribute after checking its
/// bounds, a set of a multiple-valued attribute as the identifiers of its members.
pub fn encode_value(map: &AttrIdMap, attr_name: &str, v: &AttributeValue) -> (r: Result<
    EncodedAttributeValue,
    AbacError,
>)
    ensures
        enc_of(r) == encode(*map, attr_name@, v@),
        match r {
            Err(AbacError::TypeMismatch(msg)) => map.entry(attr_name@) matches Some(e)
                && msg@ == mismatch_text(attr_name@, e.value_type, v@),
            _ => true,
        },
{
    let entry = match map.get_entry(attr_name) {
        Some(e) => e,
        None => {
            return Err(AbacError::UnknownKey(attr_name.to_string()));
        },
    };
    match (entry.value_type, v) {
        (AttrValueType::Single, AttributeValue::String(s)) => {
            let id = map.value_to_id(attr_name, s.as_str())?;
            Ok(EncodedAttributeValue::SingleId(id))
        },
        (AttrValueType::Numeric, AttributeValue::Number(n)) => {
            if let Some(min) = entry.numeric_min {
                if *n < min {
                    return Err(AbacError::RangeError(String::from_str("below minimum")));
                }
            }
            if let Some(max) = entry.numeric_max {
                if *n > max {
                    return Err(AbacError::RangeError(String::from_str("above maximum")));
                }
            }
            Ok(EncodedAttributeValue::Numeric(*n))
        },
        (AttrValueType::Multiple, AttributeValue::StringSet(members)) => {
            let mut ids: Vec<u32> = Vec::new();
            let mut i: usize = 0;
            proof {
                assert(members.deep_view().take(0) =~= Seq::<Seq<char>>::empty());
            }
            while i < members.len()
                invariant
                    i <= members.len(),
                    ids_of(*map, attr_name@, members.deep_view().take(i as int)) == Some(ids@),
                    map.entry(attr_name@) == Some(*entry),
                    entry.value_type == AttrValueType::Multiple,
                    v@ == AttrVal::Strings(members.deep_view()),
                decreases members.len() - i,
            {
                proof {
                    assert(members.deep_view().take(i + 1).drop_last() =~= members.deep_view().take(
                        i as int,
                    ));
                    assert(members.deep_view().take(i + 1).last() == members[i as int]@);
                }
                match map.value_to_id(attr_name, members[i].as_str()) {
                    Ok(id) => ids.push(id),
                    Err(e) => {
                        proof {
                            lemma_ids_of_prefix_none(
                                *map,
                                attr_name@,
                                members.deep_view(),
                                i + 1,
                            );
                        }
                        return Err(e);
                    },
                }
                i = i + 1;
            }
            proof {
                assert(members.deep_view().take(members.len() as int) =~= members.deep_view());
            }
            Ok(EncodedAttributeValue::MultipleIds(ids))
        },
        _ => Err(AbacError::TypeMismatch(mismatch_message(attr_name, entry.value_type, v))),
    }
}

/// Bit `j` of `x` is set.
pub open spec fn bit(x: u32, j: u32) -> bool {
    (x >> j) & 1 == 1
}

proof fn lemma_bit_or_shift(a: u32, i: u32, j: u32)
    requires
        i < 32,
        j < 32,
    ensures
        bit(a | (1u32 << i), j) == (bit(a, j) || i == j),
{
    assert((((a | (1u32 << i)) >> j) & 1 == 1) == (((a >> j) & 1 == 1) || i == j)) by (bit_vector)
        requires
            i < 32,
            j < 32,
    ;
}

proof fn lemma_bit_zero(j: u32)
    requires
        j < 32,
    ensures
        !bit(0, j),
{
    assert(((0u32 >> j) & 1) == 0) by (bit_vector);
}

proof fn lemma_bit_single(i: u32, j: u32)
    requires
        i < 32,
        j < 32,
    ensures
        bit(1u32 << i, j) == (i == j),
{
    assert((((1u32 << i) >> j) & 1 == 1) == (i == j)) by (bit_vector)
        requires
            i < 32,
            j < 32,
    ;
}

/// The bitmask with bit `id` set for each identifier of `ids` (each below 32).
pub open spec fn mask_of(ids: Seq<u32>) -> u32
    decreases ids.len(),
{
    if ids.len() == 0 {
        0
    } else {
        mask_of(ids.drop_last()) | (1u32 << ids.last())
    }
}

/// Packs an encoded value into one 32-bit word, as the entry's type declares it.
pub open spec fn to_word(e: AttrIdEntry, v: EncVal) -> Result<u32, ErrorKind> {
    match (e.value_type, v) {
        (AttrValueType::Single, EncVal::Single(id)) => Ok(id),
        (AttrValueType::Numeric, EncVal::Num(n)) => if 0 <= n <= u32::MAX {
            Ok(n as u32)
        } else {
            Err(ErrorKind::Range)
        },
        (AttrValueType::Multiple, EncVal::Multiple(ids)) => if exists|i: int|
            0 <= i < ids.len() && ids[i] >= 32 {
            Err(ErrorKind::Range)
        } else {
            Ok(mask_of(ids))
        },
        _ => Err(ErrorKind::TypeMismatch),
    }
}

/// Packs an encoded value into one 32-bit word: an identifier as itself, a number when
/// it fits in `u32`, a set of identifiers as a bitmask (an identifier of 32 or more is a
/// `RangeError`, never truncated).
pub fn encoded_value_to_u32(entry: &AttrIdEntry, v: &EncodedAttributeValue) -> (r: Result<
    u32,
    AbacError,
>)
    ensures
        word_of(r) == to_word(*entry, v@),
        r is Ok && v is MultipleIds ==> forall|j: u32|
            j < 32 ==> (bit(r->Ok_0, j) <==> v@->Multiple_0.contains(j)),
{
    match (entry.value_type, v) {
        (AttrValueType::Single, EncodedAttributeValue::SingleId(id)) => Ok(*id),
        (AttrValueType::Numeric, EncodedAttributeValue::Numeric(n)) => {
            if *n < 0 || *n > u32::MAX as i64 {
                return Err(AbacError::RangeError(String::from_str("out of u32 range")));
            }
            Ok(*n as u32)
        },
        (AttrValueType::Multiple, EncodedAttributeValue::MultipleIds(ids)) => {
            let mut bits: u32 = 0;
            let mut i: usize = 0;
            proof {
                assert(ids@.take(0) =~= Seq::<u32>::empty());
                assert forall|j: u32| j < 32 implies !bit(bits, j) by {
                    lemma_bit_zero(j);
                }
            }
            while i < ids.len()
                invariant
                    i <= ids.len(),
                    entry.value_type == AttrValueType::Multiple,
                    v@ == EncVal::Multiple(ids@),
                    bits == mask_of(ids@.take(i as int)),
                    forall|k: int| 0 <= k < i ==> ids@[k] < 32,
                    forall|j: u32|
                        j < 32 ==> (bit(bits, j) <==> ids@.take(i as int).contains(j)),
                decreases ids.len() - i,
            {
                let id = ids[i];
                if id >= 32 {
                    proof {
                        assert(ids@[i as int] >= 32);
                    }
                    return Err(AbacError::RangeError(String::from_str("identifier above 31")));
                }
                proof {
                    assert(ids@.take(i + 1).drop_last() =~= ids@.take(i as int));
                    assert(ids@.take(i + 1).last() == id);
                    assert forall|j: u32| j < 32 implies (bit(bits | (1u32 << id), j)
                        <==> ids@.take(i + 1).contains(j)) by {
                        lemma_bit_or_shift(bits, id, j);
                        if ids@.take(i as int).contains(j) {
                            let k = choose|k: int| 0 <= k < i && #[trigger] ids@.take(i as int)[k] == j;
                            assert(ids@.take(i + 1)[k] == j);
                        }
                        if ids@.take(i + 1).contains(j) {
                            let k = choose|k: int| 0 <= k < i + 1 && #[trigger] ids@.take(i + 1)[k] == j;
                            if k < i {
                                assert(ids@.take(i as int)[k] == j);
                            }
                        }
                        if id == j {
                            assert(ids@.take(i + 1)[i as int] == j);
                        }
                    }
                }
                bits = bits | (1u32 << id);
                i = i + 1;
            }
            proof {
                assert(ids@.take(ids.len() as int) =~= ids@);
            }
            Ok(bits)
        },
        _ => Err(AbacError::TypeMismatch(String::from_str("encoding does not match entry"))),
    }
}

/// The 32-character rendering of `b`, most significant bit first.
pub open spec fn bits_str(b: u32) -> Seq<char> {
    Seq::new(
        32,
        |i: int|
            if bit(b, (31 - i) as u32) {
                '1'
            } else {
                '0'
            },
    )
}

/// Renders a 32-bit word as 32 characters `0` / `1`, most significant bit first.
pub fn u32_to_bit_string(b: u32) -> (r: String)
    ensures
        r@ == bits_str(b),
{
    let mut out = String::new();
    let mut i: u32 = 0;
    proof {
        reveal_strlit("0");
        reveal_strlit("1");
    }
    while i < 32
        invariant
            i <= 32,
            out@ =~= bits_str(b).take(i as int),
        decreases 32 - i,
    {
        proof {
            reveal_strlit("0");
            reveal_strlit("1");
        }
        let ghost before = out@;
        if (b >> (31 - i)) & 1 == 1 {
            out.append("1");
            proof {
                assert(out@ =~= before.push('1'));
            }
        } else {
            out.append("0");
            proof {
                assert(out@ =~= before.push('0'));
            }
        }
        i = i + 1;
    }
    out
}

/// The ladder with bit `i` set for each threshold `ts[i]` (`i < 32`) with `value <= ts[i]`.
pub open spec fn at_most_ladder(value: i64, ts: Seq<i64>) -> u32
    decreases ts.len(),
{
    if ts.len() == 0 {
        0
    } else {
        let m = at_most_ladder(value, ts.drop_last());
        let k = ts.len() - 1;
        if k < 32 && value <= ts.last() {
            m | (1u32 << (k as u32))
        } else {
            m
        }
    }
}

/// The index of the first threshold equal to `t`, if it is below 32.
pub open spec fn first_equal_below_32(t: i64, ts: Seq<i64>, i: int) -> bool {
    0 <= i < ts.len() && i < 32 && ts[i] == t && forall|j: int| 0 <= j < i ==> ts[j] != t
}

/// The ladder with only the bit of the first threshold equal to `t` set, when that
/// threshold is among the first 32; else no bit.
pub open spec fn exact_ladder(t: i64, ts: Seq<i64>) -> u32 {
    if exists|i: int| first_equal_below_32(t, ts, i) {
        let i = choose|i: int| first_equal_below_32(t, ts, i);
        1u32 << (i as u32)
    } else {
        0
    }
}

fn at_most_bits(value: i64, thresholds: &[i64]) -> (r: u32)
    ensures
        r == at_most_ladder(value, thresholds@),
        forall|j: u32|
            j < 32 ==> (bit(r, j) <==> (j < thresholds@.len() && value <= thresholds@[j as int])),
{
    let mut bits: u32 = 0;
    let mut i: usize = 0;
    proof {
        assert(thresholds@.take(0) =~= Seq::<i64>::empty());
        assert forall|j: u32| j < 32 implies !bit(bits, j) by {
            lemma_bit_zero(j);
        }
    }
    while i < thresholds.len()
        invariant
            i <= thresholds.len(),
            bits == at_most_ladder(value, thresholds@.take(i as int)),
            forall|j: u32|
                j < 32 ==> (bit(bits, j) <==> (j < i && value <= thresholds@[j as int])),
        decreases thresholds.len() - i,
    {
        proof {
            assert(thresholds@.take(i + 1).drop_last() =~= thresholds@.take(i as int));
            assert(thresholds@.take(i + 1).last() == thresholds@[i as int]);
        }
        let set = i < 32 && value <= thresholds[i];
        let next = if set {
            bits | (1u32 << (i as u32))
        } else {
            bits
        };
        proof {
            assert forall|j: u32| j < 32 implies (bit(next, j) <==> (j < i + 1 && value
                <= thresholds@[j as int])) by {
                if set {
                    lemma_bit_or_shift(bits, i as u32, j);
                } else if j == i {
                    assert(!(value <= thresholds@[j as int]));
                }
            }
        }
        bits = next;
        i = i + 1;
    }
    proof {
        assert(thresholds@.take(thresholds.len() as int) =~= thresholds@);
    }
    bits
}

/// Encodes a concrete value as a threshold ladder: bit `i` is set iff
/// `value <= thresholds[i]`, for the first 32 thresholds.
pub fn numeric_to_threshold_bits(value: i64, thresholds: &[i64]) -> (r: u32)
    ensures
        r == at_most_ladder(value, thresholds@),
        forall|j: u32|
            j < 32 ==> (bit(r, j) <==> (j < thresholds@.len() && value <= thresholds@[j as int])),
{
    at_most_bits(value, thresholds)
}

/// Encodes an at-least requirement as the buckets compatible with it: bit `i` is set iff
/// `threshold <= thresholds[i]`, for the first 32 thresholds.
pub fn requirement_ge_to_threshold_bits(threshold: i64, thresholds: &[i64]) -> (r: u32)
    ensures
        r == at_most_ladder(threshold, thresholds@),
        forall|j: u32|
            j < 32 ==> (bit(r, j) <==> (j < thresholds@.len() && threshold <= thresholds@[
                j as int
            ])),
{
    at_most_bits(threshold, thresholds)
}

/// Encodes an upper-bound requirement as an exact match: only the bit of the first
/// threshold equal to `threshold` is set, if that threshold is among the first 32.
pub fn requirement_lt_to_threshold_bits(threshold: i64, thresholds: &[i64]) -> (r: u32)
    ensures
        r == exact_ladder(threshold, thresholds@),
        forall|j: u32|
            j < 32 ==> (bit(r, j) <==> first_equal_below_32(threshold, thresholds@, j as int)),
{
    let mut i: usize = 0;
    while i < thresholds.len() && i < 32
        invariant
            i <= thresholds.len(),
            i <= 32,
            forall|j: int| 0 <= j < i ==> thresholds@[j] != threshold,
        decreases thresholds.len() - i,
    {
        if thresholds[i] == threshold {
            proof {
                assert(first_equal_below_32(threshold, thresholds@, i as int));
                let k = choose|k: int| first_equal_below_32(threshold, thresholds@, k);
                assert(k == i);
                assert forall|j: u32| j < 32 implies (bit(1u32 << (i as u32), j)
                    <==> first_equal_below_32(threshold, thresholds@, j as int)) by {
                    lemma_bit_single(i as u32, j);
                }
            }
            return 1u32 << (i as u32);
        }
        i = i + 1;
    }
    proof {
        assert forall|j: u32| j < 32 implies !bit(0, j) && !first_equal_below_32(
            threshold,
            thresholds@,
            j as int,
        ) by {
            lemma_bit_zero(j);
        }
    }
    0
}

/// The bitmask of the identifiers of `values` for attribute `attr`. A value without
/// identifier is an `UnknownKey` error; an identifier of 32 or more does not fit the word
/// and is a `RangeError`.
pub open spec fn id_mask(m: AttrIdMap, attr: Seq<char>, values: Seq<Seq<char>>) -> Result<
    u32,
    ErrorKind,
>
    decreases values.len(),
{
    if values.len() == 0 {
        Ok(0)
    } else {
        match id_mask(m, attr, values.drop_last()) {
            Err(k) => Err(k),
            Ok(mask) => match m.id_of(attr, values.last()) {
                None => Err(ErrorKind::UnknownKey),
                Some(id) => if id < 32 {
                    Ok(mask | (1u32 << id))
                } else {
                    Err(ErrorKind::Range)
                },
            },
        }
    }
}

/// The slot of a categorical attribute with allowed `values`: 0 when unconstrained, the
/// identifier itself for one value, the identifier bitmask for several.
pub open spec fn categorical_slot(
    m: AttrIdMap,
    attr: Seq<char>,
    values: Seq<Seq<char>>,
) -> Result<u32, ErrorKind> {
    if values.len() == 0 {
        Ok(0)
    } else if values.len() == 1 {
        match m.id_of(attr, values[0]) {
            Some(id) => Ok(id),
            None => Err(ErrorKind::UnknownKey),
        }
    } else {
        id_mask(m, attr, values)
    }
}

/// The 32-bit slot of attribute `name` in a key.
pub open spec fn slot(m: AttrIdMap, merged: MergedVal, name: Seq<char>) -> Result<
    u32,
    ErrorKind,
> {
    if name == "Src.Role"@ {
        categorical_slot(m, name, merged.role)
    } else if name == "Src.Dept"@ {
        categorical_slot(m, name, merged.dept)
    } else if name == "Src.Groups"@ {
        id_mask(m, name, merged.groups)
    } else {
        Ok(0)
    }
}

/// The trust score is constrained and listed, so the key carries a threshold slot.
pub open spec fn uses_threshold(merged: MergedVal, order: Seq<Seq<char>>) -> bool {
    order.contains("Src.TrustScore"@) && (merged.ge.len() > 0 || merged.lt.len() > 0)
}

/// The OR of the at-least ladders of every lower bound.
pub open spec fn ge_ladders(ges: Seq<i64>, ts: Seq<i64>) -> u32
    decreases ges.len(),
{
    if ges.len() == 0 {
        0
    } else {
        ge_ladders(ges.drop_last(), ts) | at_most_ladder(ges.last(), ts)
    }
}

/// The OR of the exact-match ladders of every upper bound.
pub open spec fn lt_ladders(lts: Seq<i64>, ts: Seq<i64>) -> u32
    decreases lts.len(),
{
    if lts.len() == 0 {
        0
    } else {
        lt_ladders(lts.drop_last(), ts) | exact_ladder(lts.last(), ts)
    }
}

/// The threshold slot: the lower-bound and upper-bound ladders combined.
pub open spec fn threshold_slot(merged: MergedVal, ts: Seq<i64>) -> u32 {
    ge_ladders(merged.ge, ts) | lt_ladders(merged.lt, ts)
}

/// The slots of every attribute of `order`, in order.
pub open spec fn slots(m: AttrIdMap, merged: MergedVal, order: Seq<Seq<char>>) -> Result<
    Seq<u32>,
    ErrorKind,
>
    decreases order.len(),
{
    if order.len() == 0 {
        Ok(Seq::empty())
    } else {
        match slots(m, merged, order.drop_last()) {
            Err(k) => Err(k),
            Ok(ws) => match slot(m, merged, order.last()) {
                Err(k) => Err(k),
                Ok(w) => Ok(ws.push(w)),
            },
        }
    }
}

/// The renderings of `ws`, concatenated.
pub open spec fn concat_bits(ws: Seq<u32>) -> Seq<char>
    decreases ws.len(),
{
    if ws.len() == 0 {
        Seq::empty()
    } else {
        concat_bits(ws.drop_last()) + bits_str(ws.last())
    }
}

/// The names of a list of attribute names.
pub open spec fn names(order: Seq<&str>) -> Seq<Seq<char>> {
    order.map_values(|s: &str| s@)
}

/// The concatenated key: one slot per attribute of `order`, then the threshold slot
/// (zero when the trust score is not constrained).
pub open spec fn key_string(m: AttrIdMap, merged: MergedVal, order: Seq<Seq<char>>, ts: Seq<i64>) -> Result<
    Seq<char>,
    ErrorKind,
> {
    match slots(m, merged, order) {
        Err(k) => Err(k),
        Ok(ws) => Ok(
            concat_bits(
                ws.push(
                    if uses_threshold(merged, order) {
                        threshold_slot(merged, ts)
                    } else {
                        0
                    },
                ),
            ),
        ),
    }
}

/// How a key is to be read.
#[derive(Debug, Clone, Copy, PartialEq, Eq, Structural)]
pub struct KeySemantics {
    /// The key carries a trust-score threshold slot.
    pub use_trust_score_threshold: bool,
}

proof fn lemma_id_mask_prefix_err(
    m: AttrIdMap,
    attr: Seq<char>,
    values: Seq<Seq<char>>,
    j: int,
)
    requires
        0 <= j <= values.len(),
        id_mask(m, attr, values.take(j)) is Err,
    ensures
        id_mask(m, attr, values) == id_mask(m, attr, values.take(j)),
    decreases values.len() - j,
{
    if j < values.len() {
        assert(values.take(j + 1).drop_last() =~= values.take(j));
        lemma_id_mask_prefix_err(m, attr, values, j + 1);
    } else {
        assert(values.take(j) =~= values);
    }
}

fn id_mask_exec(map: &AttrIdMap, attr: &str, values: &Vec<String>) -> (r: Result<
    u32,
    AbacError,
>)
    ensures
        word_of(r) == id_mask(*map, attr@, values.deep_view()),
{
    let mut mask: u32 = 0;
    let mut i: usize = 0;
    proof {
        assert(values.deep_view().take(0) =~= Seq::<Seq<char>>::empty());
    }
    while i < values.len()
        invariant
            i <= values.len(),
            id_mask(*map, attr@, values.deep_view().take(i as int)) == Ok::<
                u32,
                ErrorKind,
            >(mask),
        decreases values.len() - i,
    {
        proof {
            assert(values.deep_view().take(i + 1).drop_last() =~= values.deep_view().take(
                i as int,
            ));
            assert(values.deep_view().take(i + 1).last() == values[i as int]@);
        }
        match map.value_to_id(attr, values[i].as_str()) {
            Ok(id) => {
                if id >= 32 {
                    proof {
                        lemma_id_mask_prefix_err(*map, attr@, values.deep_view(), i + 1);
                    }
                    return Err(AbacError::RangeError(String::from_str("identifier above 31")));
                }
                mask = mask | (1u32 << id);
            },
            Err(e) => {
                proof {
                    lemma_id_mask_prefix_err(*map, attr@, values.deep_view(), i + 1);
                }
                return Err(e);
            },
        }
        i = i + 1;
    }
    proof {
        assert(values.deep_view().take(values.len() as int) =~= values.deep_view());
    }
    Ok(mask)
}

fn categorical_slot_exec(map: &AttrIdMap, attr: &str, values: &Vec<String>) -> (r: Result<
    u32,
    AbacError,
>)
    ensures
        word_of(r) == categorical_slot(*map, attr@, values.deep_view()),
{
    if values.len() == 0 {
        Ok(0)
    } else if values.len() == 1 {
        map.value_to_id(attr, values[0].as_str())
    } else {
        id_mask_exec(map, attr, values)
    }
}

fn slot_exec(map: &AttrIdMap, merged: &MergedRequirements, name: &str) -> (r: Result<
    u32,
    AbacError,
>)
    ensures
        word_of(r) == slot(*map, merged@, name@),
{
    if str_eq(name, "Src.Role") {
        categorical_slot_exec(map, name, &merged.role_allowed)
    } else if str_eq(name, "Src.Dept") {
        categorical_slot_exec(map, name, &merged.dept_allowed)
    } else if str_eq(name, "Src.Groups") {
        id_mask_exec(map, name, &merged.groups_allowed)
    } else {
        Ok(0)
    }
}

fn threshold_slot_exec(merged: &MergedRequirements, thresholds: &[i64]) -> (r: u32)
    ensures
        r == threshold_slot(merged@, thresholds@),
{
    let mut ge_bits: u32 = 0;
    let mut i: usize = 0;
    proof {
        assert(merged@.ge.take(0) =~= Seq::<i64>::empty());
    }
    while i < merged.trust_score_required_ge.len()
        invariant
            i <= merged.trust_score_required_ge.len(),
            ge_bits == ge_ladders(merged@.ge.take(i as int), thresholds@),
        decreases merged.trust_score_required_ge.len() - i,
    {
        proof {
            assert(merged@.ge.take(i + 1).drop_last() =~= merged@.ge.take(i as int));
        }
        ge_bits = ge_bits | requirement_ge_to_threshold_bits(
            merged.trust_score_required_ge[i],
            thresholds,
        );
        i = i + 1;
    }
    let mut lt_bits: u32 = 0;
    let mut k: usize = 0;
    proof {
        assert(merged@.ge.take(merged@.ge.len() as int) =~= merged@.ge);
        assert(merged@.lt.take(0) =~= Seq::<i64>::empty());
    }
    while k < merged.trust_score_required_lt.len()
        invariant
            k <= merged.trust_score_required_lt.len(),
            lt_bits == lt_ladders(merged@.lt.take(k as int), thresholds@),
        decreases merged.trust_score_required_lt.len() - k,
    {
        proof {
            assert(merged@.lt.take(k + 1).drop_last() =~= merged@.lt.take(k as int));
        }
        lt_bits = lt_bits | requirement_lt_to_threshold_bits(
            merged.trust_score_required_lt[k],
            thresholds,
        );
        k = k + 1;
    }
    proof {
        assert(merged@.lt.take(merged@.lt.len() as int) =~= merged@.lt);
    }
    ge_bits | lt_bits
}

proof fn lemma_slots_prefix_err(
    m: AttrIdMap,
    merged: MergedVal,
    order: Seq<Seq<char>>,
    j: int,
)
    requires
        0 <= j <= order.len(),
        slots(m, merged, order.take(j)) is Err,
    ensures
        slots(m, merged, order) == slots(m, merged, order.take(j)),
    decreases order.len() - j,
{
    if j < order.len() {
        assert(order.take(j + 1).drop_last() =~= order.take(j));
        lemma_slots_prefix_err(m, merged, order, j + 1);
    } else {
        assert(order.take(j) =~= order);
    }
}

/// Compiles merged requirements into one key: a 32-bit slot per attribute of
/// `source_attr_order` (0 when unconstrained, an identifier or an identifier bitmask),
/// then a threshold slot carrying the trust-score ladders when the trust score is
/// constrained (0 otherwise). A value without identifier is an `UnknownKey` error; an
/// identifier of 32 or more in a bitmask is a `RangeError`.
pub fn merged_requirements_to_key_bits(
    map: &AttrIdMap,
    merged: &MergedRequirements,
    source_attr_order: &[&str],
    trust_score_thresholds: &[i64],
) -> (r: Result<(String, KeySemantics), AbacError>)
    ensures
        match r {
            Ok((key, sem)) => key_string(
                *map,
                merged@,
                names(source_attr_order@),
                trust_score_thresholds@,
            ) == Ok::<Seq<char>, ErrorKind>(key@) && sem.use_trust_score_threshold
                == uses_threshold(merged@, names(source_attr_order@)),
            Err(e) => key_string(
                *map,
                merged@,
                names(source_attr_order@),
                trust_score_thresholds@,
            ) == Err::<Seq<char>, ErrorKind>(e.kind()),
        },
{
    let ghost order = names(source_attr_order@);
    let mut buf = String::new();
    let mut use_trust_score_threshold = false;
    let ghost mut ws: Seq<u32> = Seq::empty();
    let mut i: usize = 0;
    proof {
        assert(order.take(0) =~= Seq::<Seq<char>>::empty());
    }
    while i < source_attr_order.len()
        invariant
            i <= source_attr_order.len(),
            order == names(source_attr_order@),
            slots(*map, merged@, order.take(i as int)) == Ok::<Seq<u32>, ErrorKind>(ws),
            buf@ == concat_bits(ws),
            use_trust_score_threshold == uses_threshold(merged@, order.take(i as int)),
        decreases source_attr_order.len() - i,
    {
        let name = source_attr_order[i];
        proof {
            assert(order.take(i + 1).drop_last() =~= order.take(i as int));
            assert(order.take(i + 1).last() == name@);
        }
        let u = match slot_exec(map, merged, name) {
            Ok(u) => u,
            Err(e) => {
                proof {
                    lemma_slots_prefix_err(*map, merged@, order, i + 1);
                }
                return Err(e);
            },
        };
        if str_eq(name, "Src.TrustScore") {
            if merged.trust_score_required_ge.len() > 0 || merged.trust_score_required_lt.len() > 0 {
                use_trust_score_threshold = true;
            }
        }
        proof {
            let prev = order.take(i as int);
            let next = order.take(i + 1);
            assert(next =~= prev.push(name@));
            assert(next.contains("Src.TrustScore"@) == (prev.contains("Src.TrustScore"@) || name@
                == "Src.TrustScore"@)) by {
                if next.contains("Src.TrustScore"@) {
                    let k = choose|k: int| 0 <= k < next.len() && next[k] == "Src.TrustScore"@;
                    if k < i {
                        assert(prev[k] == next[k]);
                    }
                }
                if prev.contains("Src.TrustScore"@) {
                    let k = choose|k: int| 0 <= k < prev.len() && prev[k] == "Src.TrustScore"@;
                    assert(next[k] == prev[k]);
                }
                if name@ == "Src.TrustScore"@ {
                    assert(next[i as int] == name@);
                }
            }
        }
        let bits = u32_to_bit_string(u);
        buf.append(bits.as_str());
        proof {
            let prev_ws = ws;
            ws = ws.push(u);
            assert(ws.drop_last() =~= prev_ws);
        }
        i = i + 1;
    }
    proof {
        assert(order.take(source_attr_order.len() as int) =~= order);
    }
    let th_bits = if use_trust_score_threshold {
        threshold_slot_exec(merged, trust_score_thresholds)
    } else {
        0u32
    };
    let bits = u32_to_bit_string(th_bits);
    buf.append(bits.as_str());
    proof {
        assert(ws.push(th_bits).drop_last() =~= ws);
    }
    Ok((buf, KeySemantics { use_trust_score_threshold }))
}

/// The values of a list of named bit-strings.
pub open spec fn pairs_view(s: Seq<(String, String)>) -> Seq<(Seq<char>, Seq<char>)> {
    s.map_values(|p: (String, String)| (p.0@, p.1@))
}

/// The index of the first pair named `k`.
pub open spec fn key_index(s: Seq<(Seq<char>, Seq<char>)>, k: Seq<char>) -> Option<int>
    decreases s.len(),
{
    if s.len() == 0 {
        None
    } else if s[0].0 == k {
        Some(0)
    } else {
        match key_index(s.drop_first(), k) {
            Some(i) => Some(i + 1),
            None => None,
        }
    }
}

/// `s` with the pair named `k` given value `v`, appended when there is none.
pub open spec fn put(s: Seq<(Seq<char>, Seq<char>)>, k: Seq<char>, v: Seq<char>) -> Seq<
    (Seq<char>, Seq<char>),
> {
    match key_index(s, k) {
        Some(i) => s.update(i, (k, v)),
        None => s.push((k, v)),
    }
}

/// The named slots of every attribute of `order`, with the same slots and errors as
/// the concatenated key.
pub open spec fn attr_pairs(m: AttrIdMap, merged: MergedVal, order: Seq<Seq<char>>) -> Result<
    Seq<(Seq<char>, Seq<char>)>,
    ErrorKind,
>
    decreases order.len(),
{
    if order.len() == 0 {
        Ok(Seq::empty())
    } else {
        match attr_pairs(m, merged, order.drop_last()) {
            Err(k) => Err(k),
            Ok(p) => match slot(m, merged, order.last()) {
                Err(k) => Err(k),
                Ok(w) => Ok(put(p, order.last(), bits_str(w))),
            },
        }
    }
}

/// The per-attribute key: a named slot per attribute of `order`, and a
/// `Src.TrustScore.Threshold` slot when the trust score is constrained.
pub open spec fn key_pairs(m: AttrIdMap, merged: MergedVal, order: Seq<Seq<char>>, ts: Seq<i64>) -> Result<
    Seq<(Seq<char>, Seq<char>)>,
    ErrorKind,
> {
    match attr_pairs(m, merged, order) {
        Err(k) => Err(k),
        Ok(p) => Ok(
            if uses_threshold(merged, order) {
                put(p, "Src.TrustScore.Threshold"@, bits_str(threshold_slot(merged, ts)))
            } else {
                p
            },
        ),
    }
}

proof fn lemma_key_index_view(s: Seq<(String, String)>, k: Seq<char>)
    ensures
        first_named(s, k) == key_index(pairs_view(s), k),
    decreases s.len(),
{
    if s.len() > 0 {
        assert(pairs_view(s).drop_first() =~= pairs_view(s.drop_first()));
        lemma_key_index_view(s.drop_first(), k);
    }
}

fn put_pair(v: &mut Vec<(String, String)>, k: String, val: String)
    ensures
        pairs_view(final(v)@) == put(pairs_view(old(v)@), k@, val@),
{
    proof {
        lemma_key_index_view(v@, k@);
    }
    let ghost before = v@;
    match find_named_index(v, k.as_str()) {
        Some(i) => {
            v.set(i, (k, val));
            proof {
                assert(pairs_view(v@) =~= pairs_view(before).update(i as int, (k@, val@)));
            }
        },
        None => {
            v.push((k, val));
            proof {
                assert(pairs_view(v@) =~= pairs_view(before).push((k@, val@)));
            }
        },
    }
}

proof fn lemma_attr_pairs_prefix_err(m: AttrIdMap, merged: MergedVal, order: Seq<Seq<char>>, j: int)
    requires
        0 <= j <= order.len(),
        attr_pairs(m, merged, order.take(j)) is Err,
    ensures
        attr_pairs(m, merged, order) == attr_pairs(m, merged, order.take(j)),
    decreases order.len() - j,
{
    if j < order.len() {
        assert(order.take(j + 1).drop_last() =~= order.take(j));
        lemma_attr_pairs_prefix_err(m, merged, order, j + 1);
    } else {
        assert(order.take(j) =~= order);
    }
}

/// Named key slots of a compiled key, in first-insertion order.
pub open spec fn pairs_of(r: Result<Vec<(String, String)>, AbacError>) -> Result<
    Seq<(Seq<char>, Seq<char>)>,
    ErrorKind,
> {
    match r {
        Ok(v) => Ok(pairs_view(v@)),
        Err(e) => Err(e.kind()),
    }
}

/// Compiles merged requirements into named bit-strings: one per attribute of
/// `source_attr_order` (the slots of [`merged_requirements_to_key_bits`], with the same
/// errors), plus `Src.TrustScore.Threshold` carrying the trust-score ladders when the
/// trust score is constrained.
pub fn merged_requirements_to_key_bits_per_attr(
    map: &AttrIdMap,
    merged: &MergedRequirements,
    source_attr_order: &[&str],
    trust_score_thresholds: &[i64],
) -> (r: Result<(Vec<(String, String)>, KeySemantics), AbacError>)
    ensures
        match r {
            Ok((pairs, sem)) => key_pairs(
                *map,
                merged@,
                names(source_attr_order@),
                trust_score_thresholds@,
            ) == Ok::<Seq<(Seq<char>, Seq<char>)>, ErrorKind>(pairs_view(pairs@))
                && sem.use_trust_score_threshold == uses_threshold(
                merged@,
                names(source_attr_order@),
            ),
            Err(e) => key_pairs(
                *map,
                merged@,
                names(source_attr_order@),
                trust_score_thresholds@,
            ) == Err::<Seq<(Seq<char>, Seq<char>)>, ErrorKind>(e.kind()),
        },
{
    let ghost order = names(source_attr_order@);
    let mut out: Vec<(String, String)> = Vec::new();
    let mut use_trust_score_threshold = false;
    let mut i: usize = 0;
    proof {
        assert(order.take(0) =~= Seq::<Seq<char>>::empty());
        assert(pairs_view(out@) =~= Seq::<(Seq<char>, Seq<char>)>::empty());
    }
    while i < source_attr_order.len()
        invariant
            i <= source_attr_order.len(),
            order == names(source_attr_order@),
            attr_pairs(*map, merged@, order.take(i as int)) == Ok::<
                Seq<(Seq<char>, Seq<char>)>,
                ErrorKind,
            >(pairs_view(out@)),
            use_trust_score_threshold == uses_threshold(merged@, order.take(i as int)),
        decreases source_attr_order.len() - i,
    {
        let name = source_attr_order[i];
        proof {
            assert(order.take(i + 1).drop_last() =~= order.take(i as int));
            assert(order.take(i + 1).last() == name@);
        }
        let u = match slot_exec(map, merged, name) {
            Ok(u) => u,
            Err(e) => {
                proof {
                    lemma_attr_pairs_prefix_err(*map, merged@, order, i + 1);
                }
                return Err(e);
            },
        };
        if str_eq(name, "Src.TrustScore") {
            if merged.trust_score_required_ge.len() > 0 || merged.trust_score_required_lt.len() > 0 {
                use_trust_score_threshold = true;
            }
        }
        proof {
            let prev = order.take(i as int);
            let next = order.take(i + 1);
            assert(next.contains("Src.TrustScore"@) == (prev.contains("Src.TrustScore"@) || name@
                == "Src.TrustScore"@)) by {
                if next.contains("Src.TrustScore"@) {
                    let k = choose|k: int| 0 <= k < next.len() && next[k] == "Src.TrustScore"@;
                    if k < i {
                        assert(prev[k] == next[k]);
                    }
                }
                if prev.contains("Src.TrustScore"@) {
                    let k = choose|k: int| 0 <= k < prev.len() && prev[k] == "Src.TrustScore"@;
                    assert(next[k] == prev[k]);
                }
                if name@ == "Src.TrustScore"@ {
                    assert(next[i as int] == name@);
                }
            }
        }
        put_pair(&mut out, name.to_string(), u32_to_bit_string(u));
        i = i + 1;
    }
    proof {
        assert(order.take(source_attr_order.len() as int) =~= order);
    }
    if use_trust_score_threshold {
        let th = threshold_slot_exec(merged, trust_score_thresholds);
        put_pair(&mut out, String::from_str("Src.TrustScore.Threshold"), u32_to_bit_string(th));
    }
    Ok((out, KeySemantics { use_trust_score_threshold }))
}

/// The values of a list of encoded attributes.
pub open spec fn enc_list<K>(v: Seq<(K, EncodedAttributeValue)>) -> Seq<(K, EncVal)> {
    v.map_values(|p: (K, EncodedAttributeValue)| (p.0, p.1@))
}

/// Encodes, in order, each attribute that the schema lists; the others are left out.
pub open spec fn encode_attrs<K>(
    m: AttrIdMap,
    attrs: Seq<(K, AttributeValue)>,
    name_of: spec_fn(K) -> Seq<char>,
) -> Result<Seq<(K, EncVal)>, ErrorKind>
    decreases attrs.len(),
{
    if attrs.len() == 0 {
        Ok(Seq::empty())
    } else {
        match encode_attrs(m, attrs.drop_last(), name_of) {
            Err(k) => Err(k),
            Ok(done) => {
                let (k, v) = attrs.last();
                if m.entry(name_of(k)) is Some {
                    match encode(m, name_of(k), v@) {
                        Err(e) => Err(e),
                        Ok(x) => Ok(done.push((k, x))),
                    }
                } else {
                    Ok(done)
                }
            },
        }
    }
}

proof fn lemma_encode_attrs_prefix_err<K>(
    m: AttrIdMap,
    attrs: Seq<(K, AttributeValue)>,
    name_of: spec_fn(K) -> Seq<char>,
    j: int,
)
    requires
        0 <= j <= attrs.len(),
        encode_attrs(m, attrs.take(j), name_of) is Err,
    ensures
        encode_attrs(m, attrs, name_of) == encode_attrs(m, attrs.take(j), name_of),
    decreases attrs.len() - j,
{
    if j < attrs.len() {
        assert(attrs.take(j + 1).drop_last() =~= attrs.take(j));
        lemma_encode_attrs_prefix_err(m, attrs, name_of, j + 1);
    } else {
        assert(attrs.take(j) =~= attrs);
    }
}

/// Encodes every attribute of a source entity that the schema lists, in order.
pub fn encode_source_entity(map: &AttrIdMap, entity: &SourceEntity) -> (r: Result<
    Vec<(SourceEntityAttributeKey, EncodedAttributeValue)>,
    AbacError,
>)
    ensures
        match r {
            Ok(v) => encode_attrs(*map, entity.attributes@, |k| src_key_name(k)) == Ok::<
                Seq<(SourceEntityAttributeKey, EncVal)>,
                ErrorKind,
            >(enc_list(v@)),
            Err(e) => encode_attrs(*map, entity.attributes@, |k| src_key_name(k)) == Err::<
                Seq<(SourceEntityAttributeKey, EncVal)>,
                ErrorKind,
            >(e.kind()),
        },
{
    let ghost name_of = |k| src_key_name(k);
    let mut out: Vec<(SourceEntityAttributeKey, EncodedAttributeValue)> = Vec::new();
    let mut i: usize = 0;
    proof {
        assert(entity.attributes@.take(0) =~= Seq::<(SourceEntityAttributeKey, AttributeValue)>::empty());
        assert(enc_list(out@) =~= Seq::<(SourceEntityAttributeKey, EncVal)>::empty());
    }
    while i < entity.attributes.len()
        invariant
            i <= entity.attributes.len(),
            name_of == (|k| src_key_name(k)),
            encode_attrs(*map, entity.attributes@.take(i as int), name_of) == Ok::<
                Seq<(SourceEntityAttributeKey, EncVal)>,
                ErrorKind,
            >(enc_list(out@)),
        decreases entity.attributes.len() - i,
    {
        proof {
            assert(entity.attributes@.take(i + 1).drop_last() =~= entity.attributes@.take(i as int));
            assert(entity.attributes@.take(i + 1).last() == entity.attributes@[i as int]);
        }
        let (key, val) = (&entity.attributes[i].0, &entity.attributes[i].1);
        let name = key.name();
        if map.get_entry(name).is_some() {
            match encode_value(map, name, val) {
                Ok(encoded) => {
                    let ghost before = out@;
                    out.push((*key, encoded));
                    proof {
                        assert(enc_list(out@) =~= enc_list(before).push((*key, encoded@)));
                    }
                },
                Err(e) => {
                    proof {
                        lemma_encode_attrs_prefix_err(*map, entity.attributes@, name_of, i + 1);
                    }
                    return Err(e);
                },
            }
        }
        i = i + 1;
    }
    proof {
        assert(entity.attributes@.take(entity.attributes.len() as int) =~= entity.attributes@);
    }
    Ok(out)
}

/// Encodes every attribute of a destination entity that the schema lists, in order.
pub fn encode_destination_entity(map: &AttrIdMap, entity: &DestinationEntity) -> (r: Result<
    Vec<(DestinationEntityAttributeKey, EncodedAttributeValue)>,
    AbacError,
>)
    ensures
        match r {
            Ok(v) => encode_attrs(*map, entity.attributes@, |k| dst_key_name(k)) == Ok::<
                Seq<(DestinationEntityAttributeKey, EncVal)>,
                ErrorKind,
            >(enc_list(v@)),
            Err(e) => encode_attrs(*map, entity.attributes@, |k| dst_key_name(k)) == Err::<
                Seq<(DestinationEntityAttributeKey, EncVal)>,
                ErrorKind,
            >(e.kind()),
        },
{
    let ghost name_of = |k| dst_key_name(k);
    let mut out: Vec<(DestinationEntityAttributeKey, EncodedAttributeValue)> = Vec::new();
    let mut i: usize = 0;
    proof {
        assert(entity.attributes@.take(0) =~= Seq::<(DestinationEntityAttributeKey, AttributeValue)>::empty());
        assert(enc_list(out@) =~= Seq::<(DestinationEntityAttributeKey, EncVal)>::empty());
    }
    while i < entity.attributes.len()
        invariant
            i <= entity.attributes.len(),
            name_of == (|k| dst_key_name(k)),
            encode_attrs(*map, entity.attributes@.take(i as int), name_of) == Ok::<
                Seq<(DestinationEntityAttributeKey, EncVal)>,
                ErrorKind,
            >(enc_list(out@)),
        decreases entity.attributes.len() - i,
    {
        proof {
            assert(entity.attributes@.take(i + 1).drop_last() =~= entity.attributes@.take(i as int));
            assert(entity.attributes@.take(i + 1).last() == entity.attributes@[i as int]);
        }
        let (key, val) = (&entity.attributes[i].0, &entity.attributes[i].1);
        let name = key.name();
        if map.get_entry(name).is_some() {
            match encode_value(map, name, val) {
                Ok(encoded) => {
                    let ghost before = out@;
                    out.push((*key, encoded));
                    proof {
                        assert(enc_list(out@) =~= enc_list(before).push((*key, encoded@)));
                    }
                },
                Err(e) => {
                    proof {
                        lemma_encode_attrs_prefix_err(*map, entity.attributes@, name_of, i + 1);
                    }
                    return Err(e);
                },
            }
        }
        i = i + 1;
    }
    proof {
        assert(entity.attributes@.take(entity.attributes.len() as int) =~= entity.attributes@);
    }
    Ok(out)
}

/// The renderings of the packed encoded value of each attribute of `order` that the
/// encoding holds; an attribute it lacks is skipped.
pub open spec fn bit_arrays(
    m: AttrIdMap,
    enc: Seq<(SourceEntityAttributeKey, EncVal)>,
    order: Seq<Seq<char>>,
) -> Result<Seq<Seq<char>>, ErrorKind>
    decreases order.len(),
{
    if order.len() == 0 {
        Ok(Seq::empty())
    } else {
        match bit_arrays(m, enc, order.drop_last()) {
            Err(k) => Err(k),
            Ok(out) => {
                let name = order.last();
                match src_key_of(name) {
                    None => Err(ErrorKind::UnknownKey),
                    Some(k) => match assoc(enc, k) {
                        None => Ok(out),
                        Some(v) => match m.entry(name) {
                            None => Err(ErrorKind::UnknownKey),
                            Some(e) => match to_word(e, v) {
                                Err(x) => Err(x),
                                Ok(w) => Ok(out.push(bits_str(w))),
                            },
                        },
                    },
                }
            },
        }
    }
}

fn find_encoded(
    encoded: &Vec<(SourceEntityAttributeKey, EncodedAttributeValue)>,
    k: SourceEntityAttributeKey,
) -> (r: Option<&EncodedAttributeValue>)
    ensures
        match r {
            Some(v) => assoc(enc_list(encoded@), k) == Some(v@),
            None => assoc(enc_list(encoded@), k) is None,
        },
{
    let ghost s = enc_list(encoded@);
    let mut i: usize = 0;
    proof {
        lemma_assoc_start(s, k);
    }
    while i < encoded.len()
        invariant
            i <= encoded.len(),
            s == enc_list(encoded@),
            assoc(s.skip(i as int), k) == assoc(s, k),
        decreases encoded.len() - i,
    {
        proof {
            lemma_assoc_step(s, i as int, k);
        }
        if encoded[i].0 == k {
            return Some(&encoded[i].1);
        }
        i = i + 1;
    }
    proof {
        lemma_assoc_end(s, k);
    }
    None
}

proof fn lemma_bit_arrays_prefix_err(
    m: AttrIdMap,
    enc: Seq<(SourceEntityAttributeKey, EncVal)>,
    order: Seq<Seq<char>>,
    j: int,
)
    requires
        0 <= j <= order.len(),
        bit_arrays(m, enc, order.take(j)) is Err,
    ensures
        bit_arrays(m, enc, order) == bit_arrays(m, enc, order.take(j)),
    decreases order.len() - j,
{
    if j < order.len() {
        assert(order.take(j + 1).drop_last() =~= order.take(j));
        lemma_bit_arrays_prefix_err(m, enc, order, j + 1);
    } else {
        assert(order.take(j) =~= order);
    }
}

/// Renders, for each attribute of `attr_order` present in the encoding, its packed
/// 32-bit word. A name that is not a source attribute, or that the schema lacks, fails.
pub fn encoded_source_to_bit_arrays(
    map: &AttrIdMap,
    encoded: &Vec<(SourceEntityAttributeKey, EncodedAttributeValue)>,
    attr_order: &[&str],
) -> (r: Result<Vec<String>, AbacError>)
    ensures
        match r {
            Ok(v) => bit_arrays(*map, enc_list(encoded@), names(attr_order@)) == Ok::<
                Seq<Seq<char>>,
                ErrorKind,
            >(v.deep_view()),
            Err(e) => bit_arrays(*map, enc_list(encoded@), names(attr_order@)) == Err::<
                Seq<Seq<char>>,
                ErrorKind,
            >(e.kind()),
        },
{
    let ghost order = names(attr_order@);
    let ghost enc = enc_list(encoded@);
    let mut out: Vec<String> = Vec::new();
    let mut i: usize = 0;
    proof {
        assert(order.take(0) =~= Seq::<Seq<char>>::empty());
        assert(out.deep_view() =~= Seq::<Seq<char>>::empty());
    }
    while i < attr_order.len()
        invariant
            i <= attr_order.len(),
            order == names(attr_order@),
            enc == enc_list(encoded@),
            bit_arrays(*map, enc, order.take(i as int)) == Ok::<Seq<Seq<char>>, ErrorKind>(
                out.deep_view(),
            ),
        decreases attr_order.len() - i,
    {
        let name = attr_order[i];
        proof {
            assert(order.take(i + 1).drop_last() =~= order.take(i as int));
            assert(order.take(i + 1).last() == name@);
        }
        let key = match SourceEntity::parse_attribute_key(name) {
            Ok(k) => k,
            Err(e) => {
                proof {
                    lemma_bit_arrays_prefix_err(*map, enc, order, i + 1);
                }
                return Err(e);
            },
        };
        if let Some(val) = find_encoded(encoded, key) {
            let entry = match map.get_entry(name) {
                Some(e) => e,
                None => {
                    proof {
                        lemma_bit_arrays_prefix_err(*map, enc, order, i + 1);
                    }
                    return Err(AbacError::UnknownKey(name.to_string()));
                },
            };
            match encoded_value_to_u32(entry, val) {
                Ok(u) => {
                    let ghost before = out.deep_view();
                    out.push(u32_to_bit_string(u));
                    proof {
                        assert(out.deep_view() =~= before.push(bits_str(u)));
                    }
                },
                Err(e) => {
                    proof {
                        lemma_bit_arrays_prefix_err(*map, enc, order, i + 1);
                    }
                    return Err(e);
                },
            }
        }
        i = i + 1;
    }
    proof {
        assert(order.take(attr_order.len() as int) =~= order);
    }
    Ok(out)
}

/// The value of a numeral of `0` / `1` characters, most significant first (any
/// character other than `1` reads as a zero digit).
pub open spec fn binary_value(s: Seq<char>) -> int
    decreases s.len(),
{
    if s.len() == 0 {
        0
    } else {
        binary_value(s.drop_last()) * 2 + if s.last() == '1' {
            1int
        } else {
            0int
        }
    }
}

proof fn lemma_shift_step(w: u32, s: u32)
    requires
        s < 31,
    ensures
        (w >> s) as int == 2 * ((w >> (s + 1) as u32) as int) + if bit(w, s) {
            1int
        } else {
            0int
        },
{
    let x = w >> s;
    assert((w >> s) >> 1u32 == w >> (s + 1) as u32) by (bit_vector)
        requires
            s < 31,
    ;
    assert(x >> 1u32 == x / 2) by (bit_vector);
    assert(x & 1 == x % 2) by (bit_vector);
}

proof fn lemma_bits_str_prefix(w: u32, k: int)
    requires
        1 <= k <= 32,
    ensures
        binary_value(bits_str(w).take(k)) == (w >> (32 - k) as u32) as int,
    decreases k,
{
    let c = bits_str(w).take(k).last();
    assert(c == bits_str(w)[k - 1]);
    assert(c == '1' <==> bit(w, (32 - k) as u32));
    if k == 1 {
        assert(bits_str(w).take(1).drop_last() =~= Seq::<char>::empty());
        assert((w >> 31u32) & 1 == w >> 31u32) by (bit_vector);
        assert((w >> 31u32) & 1 == 0 || (w >> 31u32) & 1 == 1) by (bit_vector);
        assert(binary_value(bits_str(w).take(1)) == binary_value(Seq::<char>::empty()) * 2 + if c == '1' { 1int } else { 0int });
    } else {
        lemma_bits_str_prefix(w, k - 1);
        assert(bits_str(w).take(k).drop_last() =~= bits_str(w).take(k - 1));
        lemma_shift_step(w, (32 - k) as u32);
        let sh = (32 - k) as u32;
        assert((sh + 1) as u32 == (32 - (k - 1)) as u32);
        let d: int = if c == '1' {
            1
        } else {
            0
        };
        assert(binary_value(bits_str(w).take(k)) == binary_value(bits_str(w).take(k - 1)) * 2 + d);
        assert(binary_value(bits_str(w).take(k - 1)) == (w >> (sh + 1) as u32) as int);
        assert((w >> sh) as int == 2 * ((w >> (sh + 1) as u32) as int) + d);
    }
}

/// Rendering a word gives 32 characters which, read back as a binary numeral, give the
/// word again.
pub proof fn lemma_bit_string_round_trip(w: u32)
    ensures
        bits_str(w).len() == 32,
        binary_value(bits_str(w)) == w as int,
{
    lemma_bits_str_prefix(w, 32);
    assert(bits_str(w).take(32) =~= bits_str(w));
    assert(w >> 0u32 == w) by (bit_vector);
}

/// For every value that encodes and packs into a word under the schema, the word's
/// rendering has 32 characters and reads back as that word.
pub proof fn lemma_encoded_value_round_trip(
    m: AttrIdMap,
    attr: Seq<char>,
    v: AttrVal,
    x: EncVal,
    w: u32,
)
    requires
        encode(m, attr, v) == Ok::<EncVal, ErrorKind>(x),
        to_word(m.entry(attr)->Some_0, x) == Ok::<u32, ErrorKind>(w),
    ensures
        bits_str(w).len() == 32,
        binary_value(bits_str(w)) == w as int,
{
    lemma_bit_string_round_trip(w);
}

/// Packing a set of identifiers in which one is 32 or more fails with a range error; it
/// is never truncated.
pub proof fn lemma_wide_identifier_rejected(e: AttrIdEntry, ids: Seq<u32>, i: int)
    requires
        e.value_type == AttrValueType::Multiple,
        0 <= i < ids.len(),
        ids[i] >= 32,
    ensures
        to_word(e, EncVal::Multiple(ids)) == Err::<u32, ErrorKind>(ErrorKind::Range),
{
}

/// Bit `j` of a threshold ladder is set exactly for the thresholds not below `value`.
pub proof fn lemma_at_most_ladder_bits(value: i64, ts: Seq<i64>)
    ensures
        forall|j: u32|
            j < 32 ==> (bit(at_most_ladder(value, ts), j) <==> (j < ts.len() && value
                <= ts[j as int])),
    decreases ts.len(),
{
    if ts.len() == 0 {
        assert forall|j: u32| j < 32 implies !bit(0, j) by {
            lemma_bit_zero(j);
        }
    } else {
        let p = ts.drop_last();
        lemma_at_most_ladder_bits(value, p);
        let m = at_most_ladder(value, p);
        let k = ts.len() - 1;
        assert forall|j: u32| j < 32 implies (bit(at_most_ladder(value, ts), j) <==> (j
            < ts.len() && value <= ts[j as int])) by {
            if j < k {
                assert(ts[j as int] == p[j as int]);
            }
            if k < 32 && value <= ts.last() {
                lemma_bit_or_shift(m, k as u32, j);
            }
        }
    }
}

/// Threshold ladders are monotonic: a larger value satisfies no bucket that a smaller
/// one does not.
pub proof fn lemma_ladder_monotonic(v1: i64, v2: i64, ts: Seq<i64>)
    requires
        v1 <= v2,
    ensures
        forall|j: u32|
            j < 32 && bit(at_most_ladder(v2, ts), j) ==> bit(at_most_ladder(v1, ts), j),
{
    lemma_at_most_ladder_bits(v1, ts);
    lemma_at_most_ladder_bits(v2, ts);
}

proof fn lemma_no_bits_is_zero(x: u32)
    requires
        forall|j: u32| j < 32 ==> !bit(x, j),
    ensures
        x == 0,
{
    assert(!bit(x, 0u32));
    assert(!bit(x, 1u32));
    assert(!bit(x, 2u32));
    assert(!bit(x, 3u32));
    assert(!bit(x, 4u32));
    assert(!bit(x, 5u32));
    assert(!bit(x, 6u32));
    assert(!bit(x, 7u32));
    assert(!bit(x, 8u32));
    assert(!bit(x, 9u32));
    assert(!bit(x, 10u32));
    assert(!bit(x, 11u32));
    assert(!bit(x, 12u32));
    assert(!bit(x, 13u32));
    assert(!bit(x, 14u32));
    assert(!bit(x, 15u32));
    assert(!bit(x, 16u32));
    assert(!bit(x, 17u32));
    assert(!bit(x, 18u32));
    assert(!bit(x, 19u32));
    assert(!bit(x, 20u32));
    assert(!bit(x, 21u32));
    assert(!bit(x, 22u32));
    assert(!bit(x, 23u32));
    assert(!bit(x, 24u32));
    assert(!bit(x, 25u32));
    assert(!bit(x, 26u32));
    assert(!bit(x, 27u32));
    assert(!bit(x, 28u32));
    assert(!bit(x, 29u32));
    assert(!bit(x, 30u32));
    assert(!bit(x, 31u32));
    assert(x == 0) by (bit_vector)
        requires
            (x >> 0u32) & 1 != 1,
            (x >> 1u32) & 1 != 1,
            (x >> 2u32) & 1 != 1,
            (x >> 3u32) & 1 != 1,
            (x >> 4u32) & 1 != 1,
            (x >> 5u32) & 1 != 1,
            (x >> 6u32) & 1 != 1,
            (x >> 7u32) & 1 != 1,
            (x >> 8u32) & 1 != 1,
            (x >> 9u32) & 1 != 1,
            (x >> 10u32) & 1 != 1,
            (x >> 11u32) & 1 != 1,
            (x >> 12u32) & 1 != 1,
            (x >> 13u32) & 1 != 1,
            (x >> 14u32) & 1 != 1,
            (x >> 15u32) & 1 != 1,
            (x >> 16u32) & 1 != 1,
            (x >> 17u32) & 1 != 1,
            (x >> 18u32) & 1 != 1,
            (x >> 19u32) & 1 != 1,
            (x >> 20u32) & 1 != 1,
            (x >> 21u32) & 1 != 1,
            (x >> 22u32) & 1 != 1,
            (x >> 23u32) & 1 != 1,
            (x >> 24u32) & 1 != 1,
            (x >> 25u32) & 1 != 1,
            (x >> 26u32) & 1 != 1,
            (x >> 27u32) & 1 != 1,
            (x >> 28u32) & 1 != 1,
            (x >> 29u32) & 1 != 1,
            (x >> 30u32) & 1 != 1,
            (x >> 31u32) & 1 != 1,
    ;
}

proof fn lemma_bit_and_not(a: u32, b: u32, j: u32)
    requires
        j < 32,
    ensures
        bit(a & !b, j) == (bit(a, j) && !bit(b, j)),
{
    assert((((a & !b) >> j) & 1 == 1) == (((a >> j) & 1 == 1) && !((b >> j) & 1 == 1))) by (bit_vector)
        requires
            j < 32,
    ;
}

/// Monotonicity in word form: the ladder of a larger value sets no bit that the ladder
/// of a smaller value leaves clear.
pub proof fn lemma_ladder_monotonic_mask(v1: i64, v2: i64, ts: Seq<i64>)
    requires
        v1 <= v2,
    ensures
        at_most_ladder(v2, ts) & !at_most_ladder(v1, ts) == 0,
{
    let a = at_most_ladder(v2, ts);
    let b = at_most_ladder(v1, ts);
    lemma_ladder_monotonic(v1, v2, ts);
    assert forall|j: u32| j < 32 implies !bit(a & !b, j) by {
        lemma_bit_and_not(a, b, j);
    }
    lemma_no_bits_is_zero(a & !b);
}

/// For ascending thresholds a ladder is a run: once a bucket is set, every later bucket
/// among the first 32 thresholds is set too, and no bit past the thresholds is set.
pub proof fn lemma_ladder_upward_closed(value: i64, ts: Seq<i64>)
    requires
        forall|i: int, k: int| 0 <= i <= k < ts.len() ==> ts[i] <= ts[k],
    ensures
        forall|j: u32, k: u32|
            j <= k < 32 && k < ts.len() && bit(at_most_ladder(value, ts), j) ==> bit(
                at_most_ladder(value, ts),
                k,
            ),
        forall|j: u32| ts.len() <= j < 32 ==> !bit(at_most_ladder(value, ts), j),
{
    lemma_at_most_ladder_bits(value, ts);
    assert forall|j: u32, k: u32|
        j <= k < 32 && k < ts.len() && bit(at_most_ladder(value, ts), j) implies bit(
            at_most_ladder(value, ts),
            k,
        ) by {
        assert(ts[j as int] <= ts[k as int]);
    }
}

} // verus!
