//! Schemas of named bit fields, and the values given for them.
use vstd::prelude::*;

use crate::bignat::{decimal, two_pow, BigNat};
use crate::error::{ErrorSpec, ObfuskeyError};

verus! {

/// One field of a schema: its name and its width in bits.
#[derive(Debug)]
pub struct FieldSchema {
    pub name: String,
    pub bits: u32,
}

impl Clone for FieldSchema {
    fn clone(&self) -> (r: FieldSchema)
        ensures
            r == *self,
    {
        FieldSchema { name: self.name.clone(), bits: self.bits }
    }
}

/// Where a field lies in the packed number: its width and its shift.
#[derive(Debug, Clone, Copy, PartialEq, Eq)]
pub struct FieldInfo {
    pub bits: u32,
    pub shift: u32,
}

// -----------------------------------------------------------------------------
// Specification of schemas
// -----------------------------------------------------------------------------
/// The total width of the fields.
pub open spec fn sum_bits(d: Seq<FieldSchema>) -> nat
    decreases d.len(),
{
    if d.len() == 0 {
        0
    } else {
        d[0].bits as nat + sum_bits(d.drop_first())
    }
}

/// The shift of field `i`: the total width of the fields after it (the last
/// field is the least significant).
pub open spec fn shift_of(d: Seq<FieldSchema>, i: int) -> nat {
    sum_bits(d.skip(i + 1))
}

/// The largest shift, that of the first field.
pub open spec fn max_shift(d: Seq<FieldSchema>) -> nat {
    shift_of(d, 0)
}

/// Field `i` has a positive width and a name that no earlier field has.
pub open spec fn field_ok(d: Seq<FieldSchema>, i: int) -> bool {
    &&& d[i].bits > 0
    &&& forall|j: int| 0 <= j < i ==> d[j].name@ != d[i].name@
}

/// Field `i` is the first field that is not acceptable.
pub open spec fn first_bad_field(d: Seq<FieldSchema>, i: int) -> bool {
    &&& 0 <= i < d.len()
    &&& !field_ok(d, i)
    &&& forall|k: int| 0 <= k < i ==> field_ok(d, k)
}

/// At most one field is the first one that is not acceptable.
pub proof fn lemma_first_bad_unique(d: Seq<FieldSchema>, i: int, j: int)
    requires
        first_bad_field(d, i),
        first_bad_field(d, j),
    ensures
        i == j,
{
    if i < j {
        assert(field_ok(d, i));
    } else if j < i {
        assert(field_ok(d, j));
    }
}

pub open spec fn empty_schema_message() -> Seq<char> {
    "Schema must contain at least one field."@
}

pub open spec fn zero_bits_message(name: Seq<char>) -> Seq<char> {
    "Field '"@ + name + "' must have a positive number of bits."@
}

pub open spec fn duplicate_name_message(name: Seq<char>) -> Seq<char> {
    "Duplicate field name '"@ + name + "'."@
}

/// The error that a definition is refused with, if it is refused: an empty
/// schema, or the first field with no bits or a repeated name.
pub open spec fn schema_error(d: Seq<FieldSchema>) -> Option<ErrorSpec> {
    if d.len() == 0 {
        Some(ErrorSpec::SchemaValidation(empty_schema_message()))
    } else if exists|i: int| #[trigger] first_bad_field(d, i) {
        let i = choose|i: int| #[trigger] first_bad_field(d, i);
        if d[i].bits == 0 {
            Some(ErrorSpec::SchemaValidation(zero_bits_message(d[i].name@)))
        } else {
            Some(ErrorSpec::SchemaValidation(duplicate_name_message(d[i].name@)))
        }
    } else {
        None
    }
}

pub proof fn lemma_sum_bits_skip(d: Seq<FieldSchema>, i: int)
    requires
        0 <= i < d.len(),
    ensures
        sum_bits(d.skip(i)) == d[i].bits + sum_bits(d.skip(i + 1)),
{
    assert(d.skip(i).drop_first() =~= d.skip(i + 1));
}

pub proof fn lemma_sum_bits_empty(d: Seq<FieldSchema>)
    ensures
        sum_bits(d.skip(d.len() as int)) == 0,
{
    assert(d.skip(d.len() as int) =~= Seq::<FieldSchema>::empty());
}

/// The shifts of later fields are smaller.
pub proof fn lemma_shift_monotone(d: Seq<FieldSchema>, i: int, j: int)
    requires
        0 <= i <= j < d.len(),
    ensures
        shift_of(d, j) <= shift_of(d, i),
        shift_of(d, j) + d[j].bits <= shift_of(d, i) + d[i].bits,
    decreases j - i,
{
    lemma_sum_bits_skip(d, j);
    if i < j {
        lemma_shift_monotone(d, i, j - 1);
        lemma_sum_bits_skip(d, j);
    }
}

// -----------------------------------------------------------------------------
// Field values
// -----------------------------------------------------------------------------
/// Values for named fields: at most one value per name, kept in insertion
/// order.
#[derive(Debug, Clone)]
pub struct FieldValues<V> {
    entries: Vec<(String, V)>,
}

/// The position of `name` among the names of `entries`.
pub open spec fn entry_index<V>(entries: Seq<(Seq<char>, V)>, name: Seq<char>) -> Option<int> {
    if exists|i: int| 0 <= i < entries.len() && entries[i].0 == name {
        Some(choose|i: int| 0 <= i < entries.len() && entries[i].0 == name)
    } else {
        None
    }
}

/// The value given for `name`, if any.
pub open spec fn entry_value<V>(entries: Seq<(Seq<char>, V)>, name: Seq<char>) -> Option<V> {
    match entry_index(entries, name) {
        Some(i) => Some(entries[i].1),
        None => None,
    }
}

/// The values by name.
pub open spec fn entries_map<V>(e: Seq<(Seq<char>, V)>) -> Map<Seq<char>, V> {
    Map::new(|n: Seq<char>| entry_index(e, n) is Some, |n: Seq<char>| entry_value(e, n)->Some_0)
}

/// No name occurs twice.
pub open spec fn distinct_names<V>(entries: Seq<(Seq<char>, V)>) -> bool {
    forall|i: int, j: int| 0 <= i < j < entries.len() ==> entries[i].0 != entries[j].0
}

impl<V> FieldValues<V> {
    /// The entries, names as character sequences.
    pub closed spec fn entries(self) -> Seq<(Seq<char>, V)> {
        self.entries@.map_values(|e: (String, V)| (e.0@, e.1))
    }

    /// Names are distinct.
    pub closed spec fn wf(self) -> bool {
        distinct_names(self.entries())
    }

    /// Well-formed values are exactly those with distinct names.
    pub proof fn lemma_wf(&self)
        ensures
            self.wf() <==> distinct_names(self.entries()),
    {
    }

    proof fn lemma_entries(self)
        ensures
            self.entries().len() == self.entries@.len(),
            forall|i: int|
                0 <= i < self.entries@.len() ==> #[trigger] self.entries()[i] == (
                    self.entries@[i].0@,
                    self.entries@[i].1,
                ),
    {
    }

    /// No values.
    pub fn new() -> (r: Self)
        ensures
            r.wf(),
            r.entries() == Seq::<(Seq<char>, V)>::empty(),
    {
        let r = FieldValues { entries: Vec::new() };
        proof {
            assert(r.entries() =~= Seq::<(Seq<char>, V)>::empty());
        }
        r
    }

    /// The number of values.
    pub fn len(&self) -> (r: usize)
        ensures
            r == self.entries().len(),
    {
        self.entries.len()
    }

    /// The position of `name`, if it has a value.
    fn find(&self, name: &str) -> (r: Option<usize>)
        requires
            self.wf(),
        ensures
            match r {
                Some(i) => i < self.entries().len() && self.entries()[i as int].0 == name@ && entry_index(self.entries(), name@) == Some(i as int),
                None => entry_index(self.entries(), name@) is None,
            },
    {
        proof {
            self.lemma_entries();
        }
        let key: String = name.to_owned();
        let n = self.entries.len();
        let mut i: usize = 0;
        while i < n
            invariant
                n == self.entries@.len(),
                i <= n,
                self.wf(),
                key@ == name@,
                forall|j: int| 0 <= j < i ==> self.entries()[j].0 != name@,
                self.entries().len() == n,
                forall|j: int|
                    0 <= j < n ==> #[trigger] self.entries()[j] == (
                        self.entries@[j].0@,
                        self.entries@[j].1,
                    ),
            decreases n - i,
        {
            if self.entries[i].0 == key {
                proof {
                    assert(self.entries()[i as int].0 == name@);
                    let k = choose|k: int|
                        0 <= k < self.entries().len() && self.entries()[k].0 == name@;
                    if k != i {
                        if k < i {
                            assert(self.entries()[k].0 != self.entries()[i as int].0);
                        } else {
                            assert(self.entries()[i as int].0 != self.entries()[k].0);
                        }
                    }
                }
                return Some(i);
            }
            i = i + 1;
        }
        None
    }

    /// The value for `name`.
    pub fn get(&self, name: &str) -> (r: Option<&V>)
        requires
            self.wf(),
        ensures
            match r {
                Some(v) => entry_value(self.entries(), name@) == Some(*v),
                None => entry_value(self.entries(), name@) is None,
            },
    {
        proof {
            self.lemma_entries();
        }
        match self.find(name) {
            Some(i) => Some(&self.entries[i].1),
            None => None,
        }
    }

    /// Whether `name` has a value.
    pub fn contains_key(&self, name: &str) -> (r: bool)
        requires
            self.wf(),
        ensures
            r == (entry_index(self.entries(), name@) is Some),
    {
        self.find(name).is_some()
    }

    /// Sets the value for `name`, replacing an earlier one.
    pub fn insert(&mut self, name: String, value: V)
        requires
            old(self).wf(),
        ensures
            final(self).wf(),
            match entry_index(old(self).entries(), name@) {
                Some(i) => final(self).entries() == old(self).entries().update(i, (name@, value)),
                None => final(self).entries() == old(self).entries().push((name@, value)),
            },
    {
        proof {
            self.lemma_entries();
        }
        match self.find(name.as_str()) {
            Some(i) => {
                self.entries.set(i, (name, value));
                proof {
                    assert(self.entries() =~= old(self).entries().update(i as int, (name@, value)));
                }
            },
            None => {
                self.entries.push((name, value));
                proof {
                    assert(self.entries() =~= old(self).entries().push((name@, value)));
                }
            },
        }
    }

    /// The names that have values, in insertion order.
    pub fn names(&self) -> (r: Vec<String>)
        ensures
            r.len() == self.entries().len(),
            forall|i: int| 0 <= i < r.len() ==> #[trigger] r@[i]@ == self.entries()[i].0,
    {
        proof {
            self.lemma_entries();
        }
        let n = self.entries.len();
        let mut r: Vec<String> = Vec::new();
        let mut i: usize = 0;
        while i < n
            invariant
                n == self.entries@.len(),
                n == self.entries().len(),
                i <= n,
                r.len() == i,
                forall|j: int| 0 <= j < i ==> #[trigger] r@[j]@ == self.entries()[j].0,
                forall|j: int|
                    0 <= j < n ==> #[trigger] self.entries()[j] == (
                        self.entries@[j].0@,
                        self.entries@[j].1,
                    ),
            decreases n - i,
        {
            r.push(self.entries[i].0.clone());
            i = i + 1;
        }
        r
    }

    /// The entry at position `i`, in insertion order.
    pub fn entry_at(&self, i: usize) -> (r: (&String, &V))
        requires
            i < self.entries().len(),
        ensures
            (r.0@, *r.1) == self.entries()[i as int],
    {
        (&self.entries[i].0, &self.entries[i].1)
    }
}

// -----------------------------------------------------------------------------
// The schema
// -----------------------------------------------------------------------------
/// Where field `i` lies.
pub open spec fn info_of(d: Seq<FieldSchema>, i: int) -> FieldInfo {
    FieldInfo { bits: d[i].bits, shift: shift_of(d, i) as u32 }
}

/// The name and the place of each field, in order.
pub open spec fn info_entries(d: Seq<FieldSchema>) -> Seq<(Seq<char>, FieldInfo)> {
    Seq::new(d.len(), |i: int| (d[i].name@, info_of(d, i)))
}

/// The position of the field called `name`, if there is one.
pub open spec fn field_index(d: Seq<FieldSchema>, name: Seq<char>) -> Option<int> {
    entry_index(info_entries(d), name)
}

/// The total width of a valid definition fits in a `u32`.
pub open spec fn schema_fits(d: Seq<FieldSchema>) -> bool {
    schema_error(d) is Some || sum_bits(d) <= u32::MAX
}

/// Sums over suffixes shrink as the suffix does.
pub proof fn lemma_sum_bits_skip_monotone(d: Seq<FieldSchema>, i: int, j: int)
    requires
        0 <= i <= j <= d.len(),
    ensures
        sum_bits(d.skip(j)) <= sum_bits(d.skip(i)),
    decreases j - i,
{
    if i < j {
        lemma_sum_bits_skip(d, i);
        lemma_sum_bits_skip_monotone(d, i + 1, j);
    }
}

/// In a definition that passes validation, names are distinct and widths
/// positive.
pub proof fn lemma_valid_fields(d: Seq<FieldSchema>)
    requires
        schema_error(d) is None,
    ensures
        d.len() > 0,
        forall|i: int| 0 <= i < d.len() ==> #[trigger] field_ok(d, i),
        distinct_names(info_entries(d)),
{
    assert forall|i: int| 0 <= i < d.len() implies #[trigger] field_ok(d, i) by {
        if !field_ok(d, i) {
            lemma_first_bad_exists(d, i);
        }
    }
    assert forall|i: int, j: int| 0 <= i < j < info_entries(d).len() implies info_entries(
        d,
    )[i].0 != info_entries(d)[j].0 by {
        assert(field_ok(d, j));
    }
}

/// If some field is not acceptable, one of them is the first.
proof fn lemma_first_bad_exists(d: Seq<FieldSchema>, i: int)
    requires
        0 <= i < d.len(),
        !field_ok(d, i),
    ensures
        exists|k: int| #[trigger] first_bad_field(d, k),
    decreases i,
{
    if forall|k: int| 0 <= k < i ==> field_ok(d, k) {
        assert(first_bad_field(d, i));
    } else {
        let k = choose|k: int| 0 <= k < i && !field_ok(d, k);
        lemma_first_bad_exists(d, k);
    }
}

/// A validated definition of bit fields, with the place of every field: the
/// last field holds the least significant bits.
#[derive(Debug)]
pub struct ObfusbitSchema {
    definition: Vec<FieldSchema>,
    field_info: FieldValues<FieldInfo>,
    total_bits: u32,
    maximum_value: BigNat,
}

impl View for ObfusbitSchema {
    type V = Seq<FieldSchema>;

    /// The definition.
    closed spec fn view(&self) -> Seq<FieldSchema> {
        self.definition@
    }
}

impl ObfusbitSchema {
    /// The definition passed validation, and the places, the total width
    /// and the maximum agree with it.
    pub closed spec fn wf(self) -> bool {
        let d = self.definition@;
        &&& schema_error(d) is None
        &&& sum_bits(d) <= u32::MAX
        &&& self.total_bits == sum_bits(d)
        &&& self.maximum_value@ == two_pow(sum_bits(d)) - 1
        &&& self.field_info.wf()
        &&& self.field_info.entries() == info_entries(d)
    }

    pub proof fn lemma_wf(&self)
        requires
            self.wf(),
        ensures
            schema_error(self@) is None,
            sum_bits(self@) <= u32::MAX,
            self@.len() > 0,
            forall|i: int| 0 <= i < self@.len() ==> #[trigger] field_ok(self@, i),
            distinct_names(info_entries(self@)),
    {
        lemma_valid_fields(self@);
    }

    /// Validates a definition and works out the place of each field.
    pub fn new(schema: Vec<FieldSchema>) -> (r: Result<Self, ObfuskeyError>)
        requires
            schema_fits(schema@),
        ensures
            match schema_error(schema@) {
                Some(e) => r matches Err(x) && x@ == e,
                None => r matches Ok(s) && s.wf() && s@ == schema@,
            },
    {
        let n = schema.len();
        if n == 0 {
            return Err(
                ObfuskeyError::SchemaValidationError(
                    String::from_str("Schema must contain at least one field."),
                ),
            );
        }
        let mut i: usize = 0;
        while i < n
            invariant
                n == schema@.len(),
                n > 0,
                i <= n,
                forall|k: int| 0 <= k < i ==> field_ok(schema@, k),
            decreases n - i,
        {
            if schema[i].bits == 0 {
                proof {
                    assert(first_bad_field(schema@, i as int));
                    let k = choose|k: int| #[trigger] first_bad_field(schema@, k);
                    lemma_first_bad_unique(schema@, i as int, k);
                }
                let mut msg = String::from_str("Field '");
                msg.append(schema[i].name.as_str());
                msg.append("' must have a positive number of bits.");
                return Err(ObfuskeyError::SchemaValidationError(msg));
            }
            let mut j: usize = 0;
            while j < i
                invariant
                    n == schema@.len(),
                    j <= i < n,
                    schema@[i as int].bits > 0,
                    forall|k: int| 0 <= k < i ==> field_ok(schema@, k),
                    forall|k: int| 0 <= k < j ==> schema@[k].name@ != schema@[i as int].name@,
                decreases i - j,
            {
                if schema[j].name == schema[i].name {
                    proof {
                        assert(first_bad_field(schema@, i as int));
                        let k = choose|k: int| #[trigger] first_bad_field(schema@, k);
                        lemma_first_bad_unique(schema@, i as int, k);
                    }
                    let mut msg = String::from_str("Duplicate field name '");
                    msg.append(schema[i].name.as_str());
                    msg.append("'.");
                    return Err(ObfuskeyError::SchemaValidationError(msg));
                }
                j = j + 1;
            }
            i = i + 1;
        }
        proof {
            if exists|k: int| #[trigger] first_bad_field(schema@, k) {
                let k = choose|k: int| #[trigger] first_bad_field(schema@, k);
                assert(field_ok(schema@, k));
            }
            assert(schema_error(schema@) is None);
            lemma_valid_fields(schema@);
        }
        // The total width, summed from the last field.
        let mut total: u32 = 0;
        let mut k: usize = n;
        proof {
            lemma_sum_bits_empty(schema@);
            assert(schema@.skip(0) =~= schema@);
        }
        while k > 0
            invariant
                n == schema@.len(),
                k <= n,
                total == sum_bits(schema@.skip(k as int)),
                sum_bits(schema@) <= u32::MAX,
                schema@.skip(0) == schema@,
            decreases k,
        {
            proof {
                lemma_sum_bits_skip(schema@, k - 1);
                lemma_sum_bits_skip_monotone(schema@, 0, k - 1);
            }
            total = total + schema[k - 1].bits;
            k = k - 1;
        }
        // The place of each field, from the first (most significant).
        let mut entries: FieldValues<FieldInfo> = FieldValues::new();
        let mut shift: u32 = total;
        let mut i: usize = 0;
        while i < n
            invariant
                n == schema@.len(),
                i <= n,
                shift == sum_bits(schema@.skip(i as int)),
                entries.wf(),
                entries.entries() == info_entries(schema@).take(i as int),
                distinct_names(info_entries(schema@)),
            decreases n - i,
        {
            proof {
                lemma_sum_bits_skip(schema@, i as int);
                assert forall|j: int| 0 <= j < entries.entries().len() implies entries.entries()[j].0
                    != schema@[i as int].name@ by {
                    assert(info_entries(schema@)[j].0 != info_entries(schema@)[i as int].0);
                }
            }
            shift = shift - schema[i].bits;
            entries.insert(schema[i].name.clone(), FieldInfo { bits: schema[i].bits, shift });
            proof {
                assert(entries.entries() =~= info_entries(schema@).take(i + 1));
            }
            i = i + 1;
        }
        proof {
            assert(info_entries(schema@).take(n as int) =~= info_entries(schema@));
        }
        proof {
            crate::math::lemma_two_pow_positive(total as nat);
        }
        let maximum_value = BigNat::from_u64(1).shl(total).sub(&BigNat::from_u64(1));
        Ok(ObfusbitSchema { definition: schema, field_info: entries, total_bits: total, maximum_value })
    }
}

// -----------------------------------------------------------------------------
// Validation of values
// -----------------------------------------------------------------------------
pub open spec fn missing_message(name: Seq<char>) -> Seq<char> {
    "Missing required field '"@ + name + "'."@
}

pub open spec fn unexpected_message(name: Seq<char>) -> Seq<char> {
    "Unexpected field '"@ + name + "'."@
}

pub open spec fn overflow_message(value: nat, name: Seq<char>, bits: nat) -> Seq<char> {
    "Value "@ + decimal(value) + " for field '"@ + name + "' exceeds "@ + decimal(bits)
        + " bits (max "@ + decimal((two_pow(bits) - 1) as nat) + ")."@
}

/// Field `i` is the first field of the definition without a value.
pub open spec fn first_missing<V>(d: Seq<FieldSchema>, e: Seq<(Seq<char>, V)>, i: int) -> bool {
    &&& 0 <= i < d.len()
    &&& entry_index(e, d[i].name@) is None
    &&& forall|k: int| 0 <= k < i ==> #[trigger] entry_index(e, d[k].name@) is Some
}

/// Entry `j` is the first value for a name that the definition lacks.
pub open spec fn first_unexpected<V>(d: Seq<FieldSchema>, e: Seq<(Seq<char>, V)>, j: int) -> bool {
    &&& 0 <= j < e.len()
    &&& field_index(d, e[j].0) is None
    &&& forall|k: int| 0 <= k < j ==> #[trigger] field_index(d, e[k].0) is Some
}

/// `value` does not fit in the field called `name`.
pub open spec fn too_wide(d: Seq<FieldSchema>, name: Seq<char>, value: nat) -> bool {
    match field_index(d, name) {
        Some(i) => value >= two_pow(d[i].bits as nat),
        None => false,
    }
}

/// Entry `j` is the first value that does not fit in its field; `nums`
/// holds the entries' values as numbers.
pub open spec fn first_too_wide<V>(
    d: Seq<FieldSchema>,
    e: Seq<(Seq<char>, V)>,
    nums: Seq<nat>,
    j: int,
) -> bool {
    &&& 0 <= j < e.len()
    &&& too_wide(d, e[j].0, nums[j])
    &&& forall|k: int| 0 <= k < j ==> !#[trigger] too_wide(d, e[k].0, nums[k])
}

/// The error that values are refused with, if they are: a field without a
/// value, then a value for an unknown field, then a value too wide for its
/// field. Values are looked at in the order they were given.
pub open spec fn values_error<V>(d: Seq<FieldSchema>, e: Seq<(Seq<char>, V)>, nums: Seq<nat>) -> Option<
    ErrorSpec,
> {
    if exists|i: int| #[trigger] first_missing(d, e, i) {
        let i = choose|i: int| #[trigger] first_missing(d, e, i);
        Some(ErrorSpec::Value(missing_message(d[i].name@)))
    } else if exists|j: int| #[trigger] first_unexpected(d, e, j) {
        let j = choose|j: int| #[trigger] first_unexpected(d, e, j);
        Some(ErrorSpec::Value(unexpected_message(e[j].0)))
    } else if exists|j: int| #[trigger] first_too_wide(d, e, nums, j) {
        let j = choose|j: int| #[trigger] first_too_wide(d, e, nums, j);
        let i = field_index(d, e[j].0)->Some_0;
        Some(ErrorSpec::BitOverflow(overflow_message(nums[j], e[j].0, d[i].bits as nat)))
    } else {
        None
    }
}

/// The values of `u64` entries, as numbers.
pub open spec fn nums_u64(e: Seq<(Seq<char>, u64)>) -> Seq<nat> {
    Seq::new(e.len(), |j: int| e[j].1 as nat)
}

/// The values of `BigNat` entries, as numbers.
pub open spec fn nums_big(e: Seq<(Seq<char>, BigNat)>) -> Seq<nat> {
    Seq::new(e.len(), |j: int| e[j].1@)
}

impl ObfusbitSchema {
    /// The fields, in order.
    pub fn definition(&self) -> (r: &[FieldSchema])
        ensures
            r@ == self@,
    {
        self.definition.as_slice()
    }

    /// The place of every field, in the order of the definition.
    pub fn field_info(&self) -> (r: &FieldValues<FieldInfo>)
        requires
            self.wf(),
        ensures
            r.wf(),
            r.entries() == info_entries(self@),
    {
        &self.field_info
    }

    /// The place of the field called `name`.
    pub fn get_field_info(&self, name: &str) -> (r: Option<&FieldInfo>)
        requires
            self.wf(),
        ensures
            match field_index(self@, name@) {
                Some(i) => r == Some(&info_of(self@, i)),
                None => r is None,
            },
    {
        let r = self.field_info.get(name);
        proof {
            match field_index(self@, name@) {
                Some(i) => {
                    assert(info_entries(self@)[i].1 == info_of(self@, i));
                },
                None => {},
            }
        }
        r
    }

    /// The total width of the fields.
    pub fn total_bits(&self) -> (r: u32)
        requires
            self.wf(),
        ensures
            r == sum_bits(self@),
    {
        self.total_bits
    }

    /// The largest packed value, `2^total_bits - 1`.
    pub fn maximum_value(&self) -> (r: &BigNat)
        requires
            self.wf(),
        ensures
            r@ == two_pow(sum_bits(self@)) - 1,
    {
        &self.maximum_value
    }

    /// The names of the fields, in order.
    pub fn field_names(&self) -> (r: Vec<String>)
        ensures
            r.len() == self@.len(),
            forall|i: int| 0 <= i < r.len() ==> #[trigger] r@[i]@ == self@[i].name@,
    {
        let n = self.definition.len();
        let mut r: Vec<String> = Vec::new();
        let mut i: usize = 0;
        while i < n
            invariant
                n == self@.len(),
                i <= n,
                r.len() == i,
                forall|j: int| 0 <= j < i ==> #[trigger] r@[j]@ == self@[j].name@,
            decreases n - i,
        {
            r.push(self.definition[i].name.clone());
            i = i + 1;
        }
        r
    }

    /// Checks that the definition has a value for each of its fields and for
    /// no other name: the error for the first field without a value, or for
    /// the first unknown name.
    fn check_names<V>(&self, values: &FieldValues<V>, nums: Ghost<Seq<nat>>) -> (r: Result<(), ObfuskeyError>)
        requires
            self.wf(),
            values.wf(),
        ensures
            match r {
                Ok(()) => !(exists|i: int| #[trigger] first_missing(self@, values.entries(), i))
                    && !(exists|j: int| #[trigger] first_unexpected(self@, values.entries(), j)),
                Err(e) => Some(e@) == values_error(self@, values.entries(), nums@),
            },
    {
        let d = &self.definition;
        let n = d.len();
        let mut i: usize = 0;
        while i < n
            invariant
                n == self@.len(),
                d@ == self@,
                i <= n,
                values.wf(),
                forall|k: int| 0 <= k < i ==> #[trigger] entry_index(values.entries(), self@[k].name@) is Some,
            decreases n - i,
        {
            if !values.contains_key(d[i].name.as_str()) {
                proof {
                    assert(first_missing(self@, values.entries(), i as int));
                    let k = choose|k: int| #[trigger] first_missing(self@, values.entries(), k);
                    if k < i {
                        assert(entry_index(values.entries(), self@[k].name@) is Some);
                    } else if k > i {
                        assert(entry_index(values.entries(), self@[i as int].name@) is Some);
                    }
                }
                let mut msg = String::from_str("Missing required field '");
                msg.append(d[i].name.as_str());
                msg.append("'.");
                return Err(ObfuskeyError::ValueError(msg));
            }
            i = i + 1;
        }
        proof {
            if exists|k: int| #[trigger] first_missing(self@, values.entries(), k) {
                let k = choose|k: int| #[trigger] first_missing(self@, values.entries(), k);
                assert(entry_index(values.entries(), self@[k].name@) is Some);
            }
        }
        let m = values.len();
        let mut j: usize = 0;
        while j < m
            invariant
                m == values.entries().len(),
                self.wf(),
                j <= m,
                !(exists|k: int| #[trigger] first_missing(self@, values.entries(), k)),
                forall|k: int| 0 <= k < j ==> #[trigger] field_index(self@, values.entries()[k].0) is Some,
            decreases m - j,
        {
            let (name, _) = values.entry_at(j);
            if !self.field_info.contains_key(name.as_str()) {
                proof {
                    assert(first_unexpected(self@, values.entries(), j as int));
                    let k = choose|k: int| #[trigger] first_unexpected(self@, values.entries(), k);
                    if k < j {
                        assert(field_index(self@, values.entries()[k].0) is Some);
                    } else if k > j {
                        assert(field_index(self@, values.entries()[j as int].0) is Some);
                    }
                }
                let mut msg = String::from_str("Unexpected field '");
                msg.append(name.as_str());
                msg.append("'.");
                return Err(ObfuskeyError::ValueError(msg));
            }
            j = j + 1;
        }
        proof {
            if exists|k: int| #[trigger] first_unexpected(self@, values.entries(), k) {
                let k = choose|k: int| #[trigger] first_unexpected(self@, values.entries(), k);
                assert(field_index(self@, values.entries()[k].0) is Some);
            }
        }
        Ok(())
    }
}

/// The error for a value too wide for its field.
fn overflow_error(value: &BigNat, name: &str, bits: u32) -> (r: ObfuskeyError)
    ensures
        r@ == ErrorSpec::BitOverflow(overflow_message(value@, name@, bits as nat)),
{
    proof {
        crate::math::lemma_two_pow_positive(bits as nat);
    }
    let max = BigNat::from_u64(1).shl(bits).sub(&BigNat::from_u64(1));
    let mut msg = String::from_str("Value ");
    msg.append(value.to_decimal_string().as_str());
    msg.append(" for field '");
    msg.append(name);
    msg.append("' exceeds ");
    msg.append(BigNat::from_u64(bits as u64).to_decimal_string().as_str());
    msg.append(" bits (max ");
    msg.append(max.to_decimal_string().as_str());
    msg.append(").");
    ObfuskeyError::BitOverflowError(msg)
}

impl ObfusbitSchema {
    /// Checks `u64` values against the schema: each field has a value, no
    /// other name has one, and each value fits in its field.
    pub fn validate_values_u64(&self, values: &FieldValues<u64>) -> (r: Result<(), ObfuskeyError>)
        requires
            self.wf(),
            values.wf(),
        ensures
            match values_error(self@, values.entries(), nums_u64(values.entries())) {
                Some(e) => r matches Err(x) && x@ == e,
                None => r is Ok,
            },
    {
        let ghost nums = nums_u64(values.entries());
        self.check_names(values, Ghost(nums))?;
        let m = values.len();
        let mut j: usize = 0;
        while j < m
            invariant
                m == values.entries().len(),
                nums == nums_u64(values.entries()),
                self.wf(),
                values.wf(),
                j <= m,
                !(exists|k: int| #[trigger] first_missing(self@, values.entries(), k)),
                !(exists|k: int| #[trigger] first_unexpected(self@, values.entries(), k)),
                forall|k: int| 0 <= k < j ==> !#[trigger] too_wide(self@, values.entries()[k].0, nums[k]),
            decreases m - j,
        {
            let (name, value) = values.entry_at(j);
            proof {
                if field_index(self@, name@) is None {
                    assert(first_unexpected(self@, values.entries(), j as int)) by {
                        assert forall|k: int| 0 <= k < j implies #[trigger] field_index(self@, values.entries()[k].0) is Some by {
                            if field_index(self@, values.entries()[k].0) is None {
                                lemma_first_unexpected_exists(self@, values.entries(), k);
                            }
                        }
                    }
                }
            }
            let info = match self.get_field_info(name.as_str()) {
                Some(info) => info,
                // every name was found above
                None => { return Ok(()); },
            };
            let ghost i = field_index(self@, name@)->Some_0;
            if info.bits < 64 {
                let b: u64 = info.bits as u64;
                proof {
                    crate::packing::lemma_u64_low_mask(*value, b);
                    crate::math::lemma_two_pow_positive(b as nat);
                }
                let max_field_value: u64 = (1u64 << b) - 1;
                if *value > max_field_value {
                    proof {
                        assert(too_wide(self@, name@, nums[j as int]));
                        assert(first_too_wide(self@, values.entries(), nums, j as int));
                        let k = choose|k: int| #[trigger] first_too_wide(self@, values.entries(), nums, k);
                        if k < j {
                            assert(!too_wide(self@, values.entries()[k].0, nums[k]));
                        } else if k > j {
                            assert(!too_wide(self@, values.entries()[j as int].0, nums[j as int]));
                        }
                    }
                    return Err(overflow_error(&BigNat::from_u64(*value), name.as_str(), info.bits));
                }
            } else {
                proof {
                    crate::math::lemma_two_pow_128();
                    crate::math::lemma_two_pow_monotone(64, info.bits as nat);
                }
            }
            j = j + 1;
        }
        proof {
            if exists|k: int| #[trigger] first_too_wide(self@, values.entries(), nums, k) {
                let k = choose|k: int| #[trigger] first_too_wide(self@, values.entries(), nums, k);
                assert(!too_wide(self@, values.entries()[k].0, nums[k]));
            }
        }
        Ok(())
    }

    /// Checks `BigNat` values against the schema: each field has a value, no
    /// other name has one, and each value fits in its field.
    pub fn validate_values_big(&self, values: &FieldValues<BigNat>) -> (r: Result<(), ObfuskeyError>)
        requires
            self.wf(),
            values.wf(),
        ensures
            match values_error(self@, values.entries(), nums_big(values.entries())) {
                Some(e) => r matches Err(x) && x@ == e,
                None => r is Ok,
            },
    {
        let ghost nums = nums_big(values.entries());
        self.check_names(values, Ghost(nums))?;
        let m = values.len();
        let mut j: usize = 0;
        while j < m
            invariant
                m == values.entries().len(),
                nums == nums_big(values.entries()),
                self.wf(),
                values.wf(),
                j <= m,
                !(exists|k: int| #[trigger] first_missing(self@, values.entries(), k)),
                !(exists|k: int| #[trigger] first_unexpected(self@, values.entries(), k)),
                forall|k: int| 0 <= k < j ==> !#[trigger] too_wide(self@, values.entries()[k].0, nums[k]),
            decreases m - j,
        {
            let (name, value) = values.entry_at(j);
            proof {
                if field_index(self@, name@) is None {
                    assert(first_unexpected(self@, values.entries(), j as int)) by {
                        assert forall|k: int| 0 <= k < j implies #[trigger] field_index(self@, values.entries()[k].0) is Some by {
                            if field_index(self@, values.entries()[k].0) is None {
                                lemma_first_unexpected_exists(self@, values.entries(), k);
                            }
                        }
                    }
                }
            }
            let info = match self.get_field_info(name.as_str()) {
                Some(info) => info,
                // every name was found above
                None => { return Ok(()); },
            };
            proof {
                crate::math::lemma_two_pow_positive(info.bits as nat);
            }
            let max_field_value = BigNat::from_u64(1).shl(info.bits).sub(&BigNat::from_u64(1));
            if max_field_value.lt(value) {
                proof {
                    assert(too_wide(self@, name@, nums[j as int]));
                    assert(first_too_wide(self@, values.entries(), nums, j as int));
                    let k = choose|k: int| #[trigger] first_too_wide(self@, values.entries(), nums, k);
                    if k < j {
                        assert(!too_wide(self@, values.entries()[k].0, nums[k]));
                    } else if k > j {
                        assert(!too_wide(self@, values.entries()[j as int].0, nums[j as int]));
                    }
                }
                return Err(overflow_error(value, name.as_str(), info.bits));
            }
            j = j + 1;
        }
        proof {
            if exists|k: int| #[trigger] first_too_wide(self@, values.entries(), nums, k) {
                let k = choose|k: int| #[trigger] first_too_wide(self@, values.entries(), nums, k);
                assert(!too_wide(self@, values.entries()[k].0, nums[k]));
            }
        }
        Ok(())
    }
}

/// If some entry names no field, one of them is the first.
proof fn lemma_first_unexpected_exists<V>(d: Seq<FieldSchema>, e: Seq<(Seq<char>, V)>, j: int)
    requires
        0 <= j < e.len(),
        field_index(d, e[j].0) is None,
    ensures
        exists|k: int| #[trigger] first_unexpected(d, e, k),
    decreases j,
{
    if forall|k: int| 0 <= k < j ==> #[trigger] field_index(d, e[k].0) is Some {
        assert(first_unexpected(d, e, j));
    } else {
        let k = choose|k: int| 0 <= k < j && !(#[trigger] field_index(d, e[k].0) is Some);
        lemma_first_unexpected_exists(d, e, k);
    }
}

/// The value given for each field of the definition, in its order; `nums`
/// holds the entries' values as numbers.
pub open spec fn ordered_nums<V>(d: Seq<FieldSchema>, e: Seq<(Seq<char>, V)>, nums: Seq<nat>) -> Seq<nat> {
    Seq::new(d.len(), |k: int| nums[entry_index(e, d[k].name@)->Some_0])
}

/// In entries with distinct names, a name is found where it stands.
pub proof fn lemma_entry_index_at<V>(e: Seq<(Seq<char>, V)>, i: int)
    requires
        distinct_names(e),
        0 <= i < e.len(),
    ensures
        entry_index(e, e[i].0) == Some(i),
{
    let k = choose|k: int| 0 <= k < e.len() && e[k].0 == e[i].0;
    if k < i {
        assert(e[k].0 != e[i].0);
    } else if i < k {
        assert(e[i].0 != e[k].0);
    }
}

/// Where a name is found, the entry there has that name.
pub proof fn lemma_entry_index_found<V>(e: Seq<(Seq<char>, V)>, name: Seq<char>)
    requires
        entry_index(e, name) is Some,
    ensures
        0 <= entry_index(e, name)->Some_0 < e.len(),
        e[entry_index(e, name)->Some_0].0 == name,
{
}

/// If some field has no value, one of them is the first.
proof fn lemma_first_missing_exists<V>(d: Seq<FieldSchema>, e: Seq<(Seq<char>, V)>, i: int)
    requires
        0 <= i < d.len(),
        entry_index(e, d[i].name@) is None,
    ensures
        exists|k: int| #[trigger] first_missing(d, e, k),
    decreases i,
{
    if forall|k: int| 0 <= k < i ==> #[trigger] entry_index(e, d[k].name@) is Some {
        assert(first_missing(d, e, i));
    } else {
        let k = choose|k: int| 0 <= k < i && !(#[trigger] entry_index(e, d[k].name@) is Some);
        lemma_first_missing_exists(d, e, k);
    }
}

/// If some value is too wide, one of them is the first.
proof fn lemma_first_too_wide_exists<V>(
    d: Seq<FieldSchema>,
    e: Seq<(Seq<char>, V)>,
    nums: Seq<nat>,
    j: int,
)
    requires
        0 <= j < e.len(),
        too_wide(d, e[j].0, nums[j]),
    ensures
        exists|k: int| #[trigger] first_too_wide(d, e, nums, k),
    decreases j,
{
    if forall|k: int| 0 <= k < j ==> !#[trigger] too_wide(d, e[k].0, nums[k]) {
        assert(first_too_wide(d, e, nums, j));
    } else {
        let k = choose|k: int| 0 <= k < j && #[trigger] too_wide(d, e[k].0, nums[k]);
        lemma_first_too_wide_exists(d, e, nums, k);
    }
}

/// Values that pass validation give each field of the definition a value
/// that fits in it, and name no other field.
pub proof fn lemma_accepted_values<V>(d: Seq<FieldSchema>, e: Seq<(Seq<char>, V)>, nums: Seq<nat>)
    requires
        schema_error(d) is None,
        nums.len() == e.len(),
        values_error(d, e, nums) is None,
    ensures
        forall|k: int| 0 <= k < d.len() ==> #[trigger] entry_index(e, d[k].name@) is Some,
        forall|j: int| 0 <= j < e.len() ==> #[trigger] field_index(d, e[j].0) is Some,
        crate::packing::values_fit(d, ordered_nums(d, e, nums)),
{
    lemma_valid_fields(d);
    assert forall|k: int| 0 <= k < d.len() implies #[trigger] entry_index(e, d[k].name@) is Some by {
        if entry_index(e, d[k].name@) is None {
            lemma_first_missing_exists(d, e, k);
        }
    }
    assert forall|j: int| 0 <= j < e.len() implies #[trigger] field_index(d, e[j].0) is Some by {
        if field_index(d, e[j].0) is None {
            lemma_first_unexpected_exists(d, e, j);
        }
    }
    let vs = ordered_nums(d, e, nums);
    assert forall|k: int| 0 <= k < d.len() implies #[trigger] vs[k] < two_pow(d[k].bits as nat) by {
        let j = entry_index(e, d[k].name@)->Some_0;
        lemma_entry_index_found(e, d[k].name@);
        lemma_entry_index_at(info_entries(d), k);
        assert(info_entries(d)[k].0 == d[k].name@);
        if too_wide(d, e[j].0, nums[j]) {
            lemma_first_too_wide_exists(d, e, nums, j);
        }
    }
}

/// The fields tile the packed number: the last field starts at bit 0, every
/// other field starts right above the field after it, and the first field
/// ends at the total width.
pub proof fn law_field_layout(d: Seq<FieldSchema>, i: int)
    requires
        0 <= i < d.len(),
    ensures
        shift_of(d, d.len() - 1) == 0,
        i + 1 < d.len() ==> shift_of(d, i) == shift_of(d, i + 1) + d[i + 1].bits,
        shift_of(d, 0) + d[0].bits == sum_bits(d),
{
    lemma_sum_bits_empty(d);
    lemma_sum_bits_skip(d, 0);
    assert(d.skip(0) =~= d);
    if i + 1 < d.len() {
        lemma_sum_bits_skip(d, i + 1);
    }
}

/// A definition is accepted exactly when it has at least one field, every
/// field has a positive width and no name repeats; only an empty definition
/// is refused as empty.
pub proof fn law_schema_accepted(d: Seq<FieldSchema>)
    ensures
        schema_error(d) is None <==> {
            &&& d.len() >= 1
            &&& forall|i: int| 0 <= i < d.len() ==> d[i].bits > 0
            &&& forall|i: int, j: int| 0 <= i < j < d.len() ==> d[i].name@ != d[j].name@
        },
        d.len() >= 1 ==> schema_error(d) != Some(
            ErrorSpec::SchemaValidation("Schema must contain at least one field."@),
        ),
{
    if schema_error(d) is None {
        lemma_valid_fields(d);
        assert forall|i: int| 0 <= i < d.len() implies d[i].bits > 0 by {
            assert(field_ok(d, i));
        }
        assert forall|i: int, j: int| 0 <= i < j < d.len() implies d[i].name@ != d[j].name@ by {
            assert(field_ok(d, j));
        }
    }
    if d.len() >= 1 && (forall|i: int| 0 <= i < d.len() ==> d[i].bits > 0) && (forall|i: int, j: int|
        0 <= i < j < d.len() ==> d[i].name@ != d[j].name@) {
        if exists|k: int| #[trigger] first_bad_field(d, k) {
            let k = choose|k: int| #[trigger] first_bad_field(d, k);
            assert(field_ok(d, k));
        }
    }
    if d.len() >= 1 && schema_error(d) is Some {
        reveal_strlit("Schema must contain at least one field.");
        reveal_strlit("Field '");
        reveal_strlit("Duplicate field name '");
        let k = choose|k: int| #[trigger] first_bad_field(d, k);
        let z = zero_bits_message(d[k].name@);
        let u = duplicate_name_message(d[k].name@);
        assert(z[0] == 'F');
        assert(u[0] == 'D');
        assert("Schema must contain at least one field."@[0] == 'S');
    }
}

} // verus!
