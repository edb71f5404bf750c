//! Packing several named values into one number, optionally obfuscated into
//! a key.
use vstd::prelude::*;

use crate::bignat::{bytes_be_value, decimal, two_pow, BigNat};
use crate::error::{result_view, ErrorSpec, ObfuskeyError};
use crate::math::{lemma_two_pow_128, lemma_two_pow_monotone, lemma_two_pow_positive};
use crate::obfusbit_schema::{
    distinct_names, entry_index, info_entries, info_of, lemma_accepted_values, lemma_entry_index_at,
    lemma_entry_index_found, max_shift, nums_big, nums_u64, ordered_nums, schema_error, schema_fits,
    shift_of, sum_bits, values_error, FieldInfo, FieldSchema, FieldValues, ObfusbitSchema,
};
use crate::obfuskey::{Obfuskey, ObfuskeyModel};
use crate::packing::{field_of, packed_value, values_fit};

verus! {

/// The order of the bytes of a packed number.
#[derive(Debug, Clone, Copy, PartialEq, Eq)]
pub enum ByteOrder {
    Big,
    Little,
}

/// What packing yields: the number, or the key that obfuscates it.
pub enum PackedSpec {
    Int(nat),
    Key(Seq<char>),
}

/// A number packed from `u64` values, or its key.
pub enum PackedU64 {
    Int(u64),
    Key(String),
}

/// A number packed from `BigNat` values, or its key.
pub enum PackedBig {
    Int(BigNat),
    Key(String),
}

impl View for PackedU64 {
    type V = PackedSpec;

    open spec fn view(&self) -> PackedSpec {
        match self {
            PackedU64::Int(i) => PackedSpec::Int(*i as nat),
            PackedU64::Key(k) => PackedSpec::Key(k@),
        }
    }
}

impl View for PackedBig {
    type V = PackedSpec;

    open spec fn view(&self) -> PackedSpec {
        match self {
            PackedBig::Int(i) => PackedSpec::Int(i@),
            PackedBig::Key(k) => PackedSpec::Key(k@),
        }
    }
}

/// What to unpack from: a packed `u64`, or a key.
pub enum UnpackDataU64<'a> {
    Int(u64),
    Key(&'a str),
}

/// What to unpack from: a packed `BigNat`, or a key.
pub enum UnpackDataBig<'a> {
    Int(BigNat),
    Key(&'a str),
}

impl<'a> View for UnpackDataU64<'a> {
    type V = PackedSpec;

    open spec fn view(&self) -> PackedSpec {
        match self {
            UnpackDataU64::Int(i) => PackedSpec::Int(*i as nat),
            UnpackDataU64::Key(k) => PackedSpec::Key(k@),
        }
    }
}

impl<'a> View for UnpackDataBig<'a> {
    type V = PackedSpec;

    open spec fn view(&self) -> PackedSpec {
        match self {
            UnpackDataBig::Int(i) => PackedSpec::Int(i@),
            UnpackDataBig::Key(k) => PackedSpec::Key(k@),
        }
    }
}

/// The bytes of a packed number in big-endian order.
pub open spec fn in_be_order(bytes: Seq<u8>, order: ByteOrder) -> Seq<u8> {
    match order {
        ByteOrder::Big => bytes,
        ByteOrder::Little => bytes.reverse(),
    }
}

/// The number of bytes that hold `total` bits.
pub open spec fn byte_len(total: nat) -> nat {
    (total + 7) / 8
}

pub open spec fn no_obfuskey_message() -> Seq<char> {
    "No obfuskey instance set."@
}

pub open spec fn expected_key_message() -> Seq<char> {
    "Expected a string key for obfuscated data."@
}

pub open spec fn expected_int_message() -> Seq<char> {
    "Expected an integer for non-obfuscated data."@
}

pub open spec fn byte_count_message(expected: nat, got: nat) -> Seq<char> {
    "Expected "@ + decimal(expected) + " bytes, got "@ + decimal(got) + "."@
}

pub open spec fn schema_too_large_message(schema_max: nat, key_max: nat) -> Seq<char> {
    "Schema maximum value "@ + decimal(schema_max) + " exceeds obfuskey maximum value "@ + decimal(
        key_max,
    ) + "."@
}

/// The largest number a definition packs: `2^total_bits - 1`.
pub open spec fn schema_maximum(d: Seq<FieldSchema>) -> nat {
    (two_pow(sum_bits(d)) - 1) as nat
}

/// The fields of `packed`, named and in the order of the definition.
pub open spec fn unpacked(d: Seq<FieldSchema>, packed: nat) -> Seq<(Seq<char>, nat)> {
    Seq::new(d.len(), |k: int| (d[k].name@, field_of(packed, d, k)))
}

/// `u64` entries with their values as numbers.
pub open spec fn entries_as_nat_u64(e: Seq<(Seq<char>, u64)>) -> Seq<(Seq<char>, nat)> {
    Seq::new(e.len(), |j: int| (e[j].0, e[j].1 as nat))
}

/// `BigNat` entries with their values as numbers.
pub open spec fn entries_as_nat_big(e: Seq<(Seq<char>, BigNat)>) -> Seq<(Seq<char>, nat)> {
    Seq::new(e.len(), |j: int| (e[j].0, e[j].1@))
}

/// The mathematical state of an `Obfusbit`: the definition, and the state of
/// its obfuscator if it has one.
pub struct ObfusbitModel {
    pub schema: Seq<FieldSchema>,
    pub obfuskey: Option<ObfuskeyModel>,
}

impl ObfusbitModel {
    /// The obfuscator's state after it was asked for a key.
    pub open spec fn after_key(self) -> ObfusbitModel {
        match self.obfuskey {
            Some(m) => ObfusbitModel { obfuskey: Some(m.after_ensure()), ..self },
            None => self,
        }
    }

    /// The obfuscator's state after it was asked for the value of `key`.
    pub open spec fn after_value(self, key: Seq<char>) -> ObfusbitModel {
        match self.obfuskey {
            Some(m) => if m.value_needs_multiplier(key) {
                ObfusbitModel { obfuskey: Some(m.after_ensure()), ..self }
            } else {
                self
            },
            None => self,
        }
    }

    /// The number that `u64` values pack into, before any obfuscation.
    pub open spec fn packed_u64(self, e: Seq<(Seq<char>, u64)>) -> nat {
        packed_value(self.schema, ordered_nums(self.schema, e, nums_u64(e))) % two_pow(64)
    }

    /// The number that `BigNat` values pack into, before any obfuscation.
    pub open spec fn packed_big(self, e: Seq<(Seq<char>, BigNat)>) -> nat {
        packed_value(self.schema, ordered_nums(self.schema, e, nums_big(e)))
    }

    /// The packed number, or its key when `obfuscate` is set.
    pub open spec fn finish_pack(self, p: nat, obfuscate: bool, key: spec_fn(ObfuskeyModel) -> Result<Seq<char>, ErrorSpec>) -> Result<PackedSpec, ErrorSpec> {
        if !obfuscate {
            Ok(PackedSpec::Int(p))
        } else {
            match self.obfuskey {
                None => Err(ErrorSpec::Value(no_obfuskey_message())),
                Some(m) => match key(m) {
                    Ok(k) => Ok(PackedSpec::Key(k)),
                    Err(x) => Err(x),
                },
            }
        }
    }

    /// What `pack_u64` returns.
    pub open spec fn pack_u64(self, e: Seq<(Seq<char>, u64)>, obfuscate: bool) -> Result<PackedSpec, ErrorSpec> {
        match values_error(self.schema, e, nums_u64(e)) {
            Some(x) => Err(x),
            None => {
                let p = self.packed_u64(e);
                self.finish_pack(p, obfuscate, |m: ObfuskeyModel| m.get_key_u64(p))
            },
        }
    }

    /// The state after asking for the key of `BigNat` number `p`.
    pub open spec fn after_key_big(self, p: nat) -> ObfusbitModel {
        match self.obfuskey {
            Some(m) => if p > m.maximum() || p == 0 {
                self
            } else {
                ObfusbitModel { obfuskey: Some(m.after_ensure()), ..self }
            },
            None => self,
        }
    }

    /// What `pack_big` returns.
    pub open spec fn pack_big(self, e: Seq<(Seq<char>, BigNat)>, obfuscate: bool) -> Result<PackedSpec, ErrorSpec> {
        match values_error(self.schema, e, nums_big(e)) {
            Some(x) => Err(x),
            None => {
                let p = self.packed_big(e);
                self.finish_pack(p, obfuscate, |m: ObfuskeyModel| m.get_key_big(p))
            },
        }
    }

    /// The number to unpack, read from `data`; `value` reads a key.
    pub open spec fn unpack_source(self, data: PackedSpec, obfuscated: bool, value: spec_fn(ObfuskeyModel, Seq<char>) -> Result<nat, ErrorSpec>) -> Result<nat, ErrorSpec> {
        if obfuscated {
            match data {
                PackedSpec::Int(_) => Err(ErrorSpec::Value(expected_key_message())),
                PackedSpec::Key(k) => match self.obfuskey {
                    None => Err(ErrorSpec::Value(no_obfuskey_message())),
                    Some(m) => value(m, k),
                },
            }
        } else {
            match data {
                PackedSpec::Int(i) => Ok(i),
                PackedSpec::Key(_) => Err(ErrorSpec::Value(expected_int_message())),
            }
        }
    }

    /// The number `unpack_u64` reads from `data`.
    pub open spec fn unpack_source_u64(self, data: PackedSpec, obfuscated: bool) -> Result<nat, ErrorSpec> {
        self.unpack_source(data, obfuscated, |m: ObfuskeyModel, k: Seq<char>| match m.get_value_u64(k) {
            Ok(v) => Ok(v as nat),
            Err(x) => Err(x),
        })
    }

    /// The number `unpack_big` reads from `data`.
    pub open spec fn unpack_source_big(self, data: PackedSpec, obfuscated: bool) -> Result<nat, ErrorSpec> {
        self.unpack_source(data, obfuscated, |m: ObfuskeyModel, k: Seq<char>| m.get_value_big(k))
    }

    /// The state after unpacking `data`.
    pub open spec fn after_unpack(self, data: PackedSpec, obfuscated: bool) -> ObfusbitModel {
        match data {
            PackedSpec::Key(k) => if obfuscated {
                self.after_value(k)
            } else {
                self
            },
            PackedSpec::Int(_) => self,
        }
    }

    /// Unpacking `data` reads a key that needs the obfuscator's multiplier.
    pub open spec fn unpack_needs_multiplier(self, data: PackedSpec, obfuscated: bool) -> bool {
        obfuscated && match data {
            PackedSpec::Key(k) => match self.obfuskey {
                Some(m) => m.value_needs_multiplier(k),
                None => false,
            },
            PackedSpec::Int(_) => false,
        }
    }

    /// Generating the obfuscator's multiplier, if it needs one, can go ahead.
    pub open spec fn can_generate(self) -> bool {
        match self.obfuskey {
            Some(m) => m.can_generate(),
            None => true,
        }
    }
}

/// Packs and unpacks named values by a schema, and obfuscates the packed
/// number with an `Obfuskey` when it has one.
pub struct Obfusbit {
    schema: ObfusbitSchema,
    obfuskey: Option<Obfuskey>,
}

impl View for Obfusbit {
    type V = ObfusbitModel;

    closed spec fn view(&self) -> ObfusbitModel {
        ObfusbitModel {
            schema: self.schema@,
            obfuskey: match self.obfuskey {
                Some(o) => Some(o@),
                None => None,
            },
        }
    }
}

/// The obfuscator, if given, is well formed.
pub open spec fn obfuskey_ok(obfuskey: Option<Obfuskey>) -> bool {
    match obfuskey {
        Some(o) => o.wf(),
        None => true,
    }
}

/// The error for a schema that packs numbers too large for the obfuscator.
fn schema_too_large_error(schema_max: &BigNat, key_max: &BigNat) -> (r: ObfuskeyError)
    ensures
        r@ == ErrorSpec::MaximumValue(schema_too_large_message(schema_max@, key_max@)),
{
    let mut msg = String::from_str("Schema maximum value ");
    msg.append(schema_max.to_decimal_string().as_str());
    msg.append(" exceeds obfuskey maximum value ");
    msg.append(key_max.to_decimal_string().as_str());
    msg.append(".");
    ObfuskeyError::MaximumValueError(msg)
}

impl Obfusbit {
    /// The schema is well formed, and so is the obfuscator, whose keys can
    /// write every packed number.
    pub closed spec fn wf(self) -> bool {
        &&& self.schema.wf()
        &&& match self.obfuskey {
            Some(o) => o.wf() && schema_maximum(self.schema@) <= o@.maximum(),
            None => true,
        }
    }

    pub proof fn lemma_wf(&self)
        requires
            self.wf(),
        ensures
            schema_error(self@.schema) is None,
            sum_bits(self@.schema) <= u32::MAX,
            self@.schema.len() > 0,
            self@.obfuskey matches Some(m) ==> crate::alphabet::valid_alphabet(m.alphabet)
                && schema_maximum(self@.schema) <= m.maximum(),
    {
        self.schema.lemma_wf();
        match &self.obfuskey {
            Some(o) => o.lemma_wf_model(),
            None => {},
        }
    }

    /// Builds a packer from a validated schema and an optional obfuscator,
    /// which must have room for every packed number.
    pub fn from_schema(schema: ObfusbitSchema, obfuskey: Option<Obfuskey>) -> (r: Result<
        Self,
        ObfuskeyError,
    >)
        requires
            schema.wf(),
            obfuskey_ok(obfuskey),
        ensures
            match obfuskey {
                Some(o) => if schema_maximum(schema@) > o@.maximum() {
                    r matches Err(e) && e@ == ErrorSpec::MaximumValue(
                        schema_too_large_message(schema_maximum(schema@), o@.maximum()),
                    )
                } else {
                    r matches Ok(b) && b.wf() && b@ == (ObfusbitModel {
                        schema: schema@,
                        obfuskey: Some(o@),
                    })
                },
                None => r matches Ok(b) && b.wf() && b@ == (ObfusbitModel {
                    schema: schema@,
                    obfuskey: None,
                }),
            },
    {
        if let Some(ok) = &obfuskey {
            if ok.maximum_value().lt(schema.maximum_value()) {
                return Err(schema_too_large_error(schema.maximum_value(), ok.maximum_value()));
            }
        }
        Ok(Obfusbit { schema, obfuskey })
    }

    /// Builds a packer from a schema definition and an optional obfuscator.
    pub fn new(schema: Vec<FieldSchema>, obfuskey: Option<Obfuskey>) -> (r: Result<
        Self,
        ObfuskeyError,
    >)
        requires
            schema_fits(schema@),
            obfuskey_ok(obfuskey),
        ensures
            match schema_error(schema@) {
                Some(e) => r matches Err(x) && x@ == e,
                None => match obfuskey {
                    Some(o) => if schema_maximum(schema@) > o@.maximum() {
                        r matches Err(e) && e@ == ErrorSpec::MaximumValue(
                            schema_too_large_message(schema_maximum(schema@), o@.maximum()),
                        )
                    } else {
                        r matches Ok(b) && b.wf() && b@ == (ObfusbitModel {
                            schema: schema@,
                            obfuskey: Some(o@),
                        })
                    },
                    None => r matches Ok(b) && b.wf() && b@ == (ObfusbitModel {
                        schema: schema@,
                        obfuskey: None,
                    }),
                },
            },
    {
        let schema = ObfusbitSchema::new(schema)?;
        Obfusbit::from_schema(schema, obfuskey)
    }

    /// Whether the obfuscator, if any, has its multiplier or can generate it
    /// without the prime search overflowing.
    pub fn can_generate(&self) -> (r: bool)
        requires
            self.wf(),
        ensures
            r == self@.can_generate(),
    {
        match &self.obfuskey {
            Some(o) => o.can_generate_multiplier(),
            None => true,
        }
    }

    /// The schema.
    pub fn schema(&self) -> (r: &ObfusbitSchema)
        requires
            self.wf(),
        ensures
            r.wf(),
            r@ == self@.schema,
    {
        &self.schema
    }

    /// The total width of the fields.
    pub fn total_bits(&self) -> (r: u32)
        requires
            self.wf(),
        ensures
            r == sum_bits(self@.schema),
    {
        self.schema.total_bits()
    }

    /// The largest packed number.
    pub fn maximum_value(&self) -> (r: &BigNat)
        requires
            self.wf(),
        ensures
            r@ == schema_maximum(self@.schema),
    {
        self.schema.maximum_value()
    }
}

impl Obfusbit {
    /// Packs accepted `u64` values into a `u64`, the last field lowest; bits
    /// above bit 63 are dropped.
    fn pack_fields_u64(&self, values: &FieldValues<u64>) -> (r: u64)
        requires
            self.wf(),
            values.wf(),
            values_error(self@.schema, values.entries(), nums_u64(values.entries())) is None,
            max_shift(self@.schema) < 64,
        ensures
            r as nat == packed_value(
                self@.schema,
                ordered_nums(self@.schema, values.entries(), nums_u64(values.entries())),
            ) % two_pow(64),
    {
        let ghost d = self@.schema;
        let ghost e = values.entries();
        let ghost vs = ordered_nums(d, e, nums_u64(e));
        proof {
            self.lemma_wf();
            lemma_accepted_values(d, e, nums_u64(e));
        }
        let infos = self.schema.field_info();
        let n = infos.len();
        let mut packed: u64 = 0;
        let mut i: usize = n;
        proof {
            lemma_two_pow_128();
        }
        while i > 0
            invariant
                n == d.len(),
                d.len() > 0,
                i <= n,
                infos.entries() == info_entries(d),
                values.wf(),
                e == values.entries(),
                vs == ordered_nums(d, e, nums_u64(e)),
                values_fit(d, vs),
                forall|k: int| 0 <= k < d.len() ==> #[trigger] entry_index(e, d[k].name@) is Some,
                max_shift(d) < 64,
                packed as nat == crate::packing::pack_from(d, vs, i as int) % two_pow(64),
            decreases i,
        {
            let k = i - 1;
            let (name, info) = infos.entry_at(k);
            let v: u64 = match values.get(name.as_str()) {
                Some(v) => *v,
                // every field has a value
                None => 0,
            };
            proof {
                assert(info_entries(d)[k as int] == (d[k as int].name@, info_of(d, k as int)));
                lemma_entry_index_found(e, d[k as int].name@);
                assert(v == vs[k as int]);
                crate::obfusbit_schema::lemma_shift_monotone(d, 0, k as int);
                crate::packing::lemma_pack_from_bound(d, vs, k + 1);
                assert(sum_bits(d.skip(k + 1)) == shift_of(d, k as int));
                lemma_two_pow_128();
                lemma_two_pow_monotone(shift_of(d, k as int), 64);
                crate::packing::lemma_pack_step_u64(
                    packed,
                    v,
                    info.shift as u64,
                    crate::packing::pack_from(d, vs, k + 1),
                );
            }
            packed = packed | (v << (info.shift as u64));
            i = k;
        }
        packed
    }

    /// Reads every field of `packed`, in the order of the definition.
    fn unpack_fields_u64(&self, packed: u64) -> (r: FieldValues<u64>)
        requires
            self.wf(),
            max_shift(self@.schema) < 64,
        ensures
            r.wf(),
            entries_as_nat_u64(r.entries()) == unpacked(self@.schema, packed as nat),
    {
        let ghost d = self@.schema;
        proof {
            self.schema.lemma_wf();
        }
        let infos = self.schema.field_info();
        let n = infos.len();
        let mut result: FieldValues<u64> = FieldValues::new();
        let mut k: usize = 0;
        while k < n
            invariant
                n == d.len(),
                k <= n,
                infos.entries() == info_entries(d),
                distinct_names(info_entries(d)),
                max_shift(d) < 64,
                result.wf(),
                result.entries().len() == k,
                forall|j: int|
                    0 <= j < k ==> #[trigger] result.entries()[j].0 == d[j].name@
                        && result.entries()[j].1 as nat == field_of(packed as nat, d, j),
            decreases n - k,
        {
            let (name, info) = infos.entry_at(k);
            proof {
                assert(info_entries(d)[k as int] == (d[k as int].name@, info_of(d, k as int)));
                crate::obfusbit_schema::lemma_shift_monotone(d, 0, k as int);
                crate::packing::lemma_extract_u64(packed, info.shift as u64, info.bits);
                if info.bits < 64 {
                    crate::packing::lemma_u64_low_mask(0, info.bits as u64);
                    lemma_two_pow_positive(info.bits as nat);
                }
                assert forall|j: int| 0 <= j < result.entries().len() implies result.entries()[j].0
                    != name@ by {
                    assert(info_entries(d)[j].0 != info_entries(d)[k as int].0);
                }
            }
            let mask: u64 = if info.bits >= 64 {
                u64::MAX
            } else {
                (1u64 << (info.bits as u64)) - 1
            };
            let value: u64 = (packed >> (info.shift as u64)) & mask;
            result.insert(name.clone(), value);
            k = k + 1;
        }
        proof {
            assert(entries_as_nat_u64(result.entries()) =~= unpacked(d, packed as nat));
        }
        result
    }
}

fn no_obfuskey_error() -> (r: ObfuskeyError)
    ensures
        r@ == ErrorSpec::Value(no_obfuskey_message()),
{
    ObfuskeyError::ValueError(String::from_str("No obfuskey instance set."))
}

impl Obfusbit {
    /// Packs `u64` values into one number, the last field lowest, and with
    /// `obfuscate` returns the key of that number instead.
    pub fn pack_u64(&mut self, values: &FieldValues<u64>, obfuscate: bool) -> (r: Result<PackedU64, ObfuskeyError>)
        requires
            old(self).wf(),
            values.wf(),
            values_error(old(self)@.schema, values.entries(), nums_u64(values.entries())) is None
                ==> max_shift(old(self)@.schema) < 64,
            obfuscate && values_error(old(self)@.schema, values.entries(), nums_u64(values.entries())) is None ==> old(self)@.can_generate(),
        ensures
            final(self).wf(),
            final(self)@ == (if obfuscate && values_error(old(self)@.schema, values.entries(), nums_u64(values.entries())) is None {
                old(self)@.after_key()
            } else {
                old(self)@
            }),
            result_view(r) == old(self)@.pack_u64(values.entries(), obfuscate),
    {
        self.schema.validate_values_u64(values)?;
        let packed = self.pack_fields_u64(values);
        if obfuscate {
            match &mut self.obfuskey {
                Some(ok) => {
                    let key = ok.get_key_u64(packed)?;
                    Ok(PackedU64::Key(key))
                },
                None => Err(no_obfuskey_error()),
            }
        } else {
            Ok(PackedU64::Int(packed))
        }
    }

    /// Reads the number to unpack: `data` itself, or with `obfuscated` the
    /// value of the key that `data` holds.
    fn unpack_source_u64(&mut self, data: UnpackDataU64, obfuscated: bool) -> (r: Result<u64, ObfuskeyError>)
        requires
            old(self).wf(),
            old(self)@.unpack_needs_multiplier(data@, obfuscated) ==> old(self)@.can_generate(),
        ensures
            final(self).wf(),
            final(self)@ == old(self)@.after_unpack(data@, obfuscated),
            match old(self)@.unpack_source_u64(data@, obfuscated) {
                Err(e) => r matches Err(x) && x@ == e,
                Ok(p) => r matches Ok(x) && x == p,
            },
    {
        if obfuscated {
            match data {
                UnpackDataU64::Key(k) => match &mut self.obfuskey {
                    Some(ok) => ok.get_value_u64(k),
                    None => Err(no_obfuskey_error()),
                },
                UnpackDataU64::Int(_) => Err(ObfuskeyError::ValueError(
                    String::from_str("Expected a string key for obfuscated data."),
                )),
            }
        } else {
            match data {
                UnpackDataU64::Int(i) => Ok(i),
                UnpackDataU64::Key(_) => Err(ObfuskeyError::ValueError(
                    String::from_str("Expected an integer for non-obfuscated data."),
                )),
            }
        }
    }

    /// Unpacks `u64` field values from a packed number, or with `obfuscated`
    /// from the key of one; the values come in the order of the definition.
    pub fn unpack_u64(&mut self, data: UnpackDataU64, obfuscated: bool) -> (r: Result<FieldValues<u64>, ObfuskeyError>)
        requires
            old(self).wf(),
            old(self)@.unpack_source_u64(data@, obfuscated) is Ok ==> max_shift(old(self)@.schema) < 64,
            old(self)@.unpack_needs_multiplier(data@, obfuscated) ==> old(self)@.can_generate(),
        ensures
            final(self).wf(),
            final(self)@ == old(self)@.after_unpack(data@, obfuscated),
            match old(self)@.unpack_source_u64(data@, obfuscated) {
                Err(e) => r matches Err(x) && x@ == e,
                Ok(p) => r matches Ok(v) && v.wf() && entries_as_nat_u64(v.entries()) == unpacked(old(self)@.schema, p),
            },
    {
        let packed = self.unpack_source_u64(data, obfuscated)?;
        Ok(self.unpack_fields_u64(packed))
    }
}

fn byte_count_error(expected: usize, got: usize) -> (r: ObfuskeyError)
    ensures
        r@ == ErrorSpec::Value(byte_count_message(expected as nat, got as nat)),
{
    let mut msg = String::from_str("Expected ");
    msg.append(BigNat::from_u64(expected as u64).to_decimal_string().as_str());
    msg.append(" bytes, got ");
    msg.append(BigNat::from_u64(got as u64).to_decimal_string().as_str());
    msg.append(".");
    ObfuskeyError::ValueError(msg)
}

/// The bytes in big-endian order.
fn be_order(data: &[u8], byteorder: ByteOrder) -> (r: Vec<u8>)
    ensures
        r@ == in_be_order(data@, byteorder),
{
    match byteorder {
        ByteOrder::Big => crate::packing::copied(data),
        ByteOrder::Little => crate::packing::reversed(data),
    }
}

impl Obfusbit {
    /// The number of bytes that hold the packed number.
    fn byte_length(&self) -> (r: usize)
        requires
            self.wf(),
        ensures
            r == byte_len(sum_bits(self@.schema)),
    {
        let total: u64 = self.schema.total_bits() as u64;
        ((total + 7) / 8) as usize
    }

    /// Packs `u64` values into bytes: the packed number in the fewest bytes
    /// that hold the total width, in the given byte order.
    pub fn pack_bytes_u64(&self, values: &FieldValues<u64>, byteorder: ByteOrder) -> (r: Result<Vec<u8>, ObfuskeyError>)
        requires
            self.wf(),
            values.wf(),
            values_error(self@.schema, values.entries(), nums_u64(values.entries())) is None
                ==> sum_bits(self@.schema) <= 64,
        ensures
            match values_error(self@.schema, values.entries(), nums_u64(values.entries())) {
                Some(e) => r matches Err(x) && x@ == e,
                None => r matches Ok(b) && b@.len() == byte_len(sum_bits(self@.schema)) && 8 * (b@.len() - 1) < sum_bits(self@.schema) <= 8 * b@.len()
                    && bytes_be_value(in_be_order(b@, byteorder)) == self@.packed_u64(values.entries()),
            },
    {
        let ghost d = self@.schema;
        let ghost e = values.entries();
        self.schema.validate_values_u64(values)?;
        proof {
            self.schema.lemma_wf();
            assert(crate::obfusbit_schema::field_ok(d, 0));
            crate::obfusbit_schema::lemma_sum_bits_skip(d, 0);
            assert(d.skip(0) =~= d);
            lemma_accepted_values(d, e, nums_u64(e));
            crate::packing::lemma_packed_bound(d, ordered_nums(d, e, nums_u64(e)));
        }
        let packed = self.pack_fields_u64(values);
        let len = self.byte_length();
        proof {
            let p = packed_value(d, ordered_nums(d, e, nums_u64(e)));
            lemma_two_pow_128();
            lemma_two_pow_monotone(sum_bits(d), 64);
            vstd::arithmetic::div_mod::lemma_small_mod(p, two_pow(64));
            lemma_two_pow_monotone(sum_bits(d), 8 * len as nat);
        }
        let be = crate::packing::be_bytes_u64(packed, len);
        match byteorder {
            ByteOrder::Big => Ok(be),
            ByteOrder::Little => {
                let le = crate::packing::reversed(be.as_slice());
                proof {
                    crate::packing::lemma_reverse_reverse(be@);
                }
                Ok(le)
            },
        }
    }

    /// Unpacks `u64` field values from bytes in the given byte order; there
    /// must be exactly as many bytes as `pack_bytes_u64` writes.
    pub fn unpack_bytes_u64(&self, data: &[u8], byteorder: ByteOrder) -> (r: Result<FieldValues<u64>, ObfuskeyError>)
        requires
            self.wf(),
            data@.len() == byte_len(sum_bits(self@.schema)) ==> sum_bits(self@.schema) <= 64,
        ensures
            data@.len() != byte_len(sum_bits(self@.schema)) ==> (r matches Err(x) && x@ == ErrorSpec::Value(
                byte_count_message(byte_len(sum_bits(self@.schema)), data@.len()),
            )),
            data@.len() == byte_len(sum_bits(self@.schema)) ==> (r matches Ok(v) && v.wf()
                && entries_as_nat_u64(v.entries()) == unpacked(
                self@.schema,
                bytes_be_value(in_be_order(data@, byteorder)),
            )),
    {
        let ghost d = self@.schema;
        let expected = self.byte_length();
        if data.len() != expected {
            return Err(byte_count_error(expected, data.len()));
        }
        let be = be_order(data, byteorder);
        proof {
            self.schema.lemma_wf();
            assert(crate::obfusbit_schema::field_ok(d, 0));
            crate::obfusbit_schema::lemma_sum_bits_skip(d, 0);
            assert(d.skip(0) =~= d);
        }
        let packed = crate::packing::u64_from_be(&be);
        Ok(self.unpack_fields_u64(packed))
    }
}

impl Obfusbit {
    /// Packs accepted `BigNat` values into one number, the last field lowest.
    fn pack_fields_big(&self, values: &FieldValues<BigNat>) -> (r: BigNat)
        requires
            self.wf(),
            values.wf(),
            values_error(self@.schema, values.entries(), nums_big(values.entries())) is None,
        ensures
            r@ == self@.packed_big(values.entries()),
    {
        let ghost d = self@.schema;
        let ghost e = values.entries();
        let ghost vs = ordered_nums(d, e, nums_big(e));
        proof {
            self.lemma_wf();
            lemma_accepted_values(d, e, nums_big(e));
        }
        let infos = self.schema.field_info();
        let n = infos.len();
        let mut packed = BigNat::zero();
        let mut i: usize = n;
        while i > 0
            invariant
                n == d.len(),
                i <= n,
                infos.entries() == info_entries(d),
                values.wf(),
                e == values.entries(),
                vs == ordered_nums(d, e, nums_big(e)),
                values_fit(d, vs),
                forall|k: int| 0 <= k < d.len() ==> #[trigger] entry_index(e, d[k].name@) is Some,
                packed@ == crate::packing::pack_from(d, vs, i as int),
                sum_bits(d) <= u32::MAX,
            decreases i,
        {
            let k = i - 1;
            let (name, info) = infos.entry_at(k);
            let zero = BigNat::zero();
            let v: &BigNat = match values.get(name.as_str()) {
                Some(v) => v,
                // every field has a value
                None => &zero,
            };
            proof {
                assert(info_entries(d)[k as int] == (d[k as int].name@, info_of(d, k as int)));
                lemma_entry_index_found(e, d[k as int].name@);
                assert(v@ == vs[k as int]);
                crate::packing::lemma_pack_from_bound(d, vs, k + 1);
                assert(sum_bits(d.skip(k + 1)) == shift_of(d, k as int));
                crate::packing::lemma_bitor_shifted(
                    crate::packing::pack_from(d, vs, k + 1),
                    v@,
                    shift_of(d, k as int),
                );
                crate::obfusbit_schema::lemma_sum_bits_skip_monotone(d, 0, k + 1);
                assert(d.skip(0) =~= d);
            }
            packed = packed.bitor(&v.shl(info.shift));
            i = k;
        }
        packed
    }

    /// Reads every field of `packed`, in the order of the definition.
    fn unpack_fields_big(&self, packed: &BigNat) -> (r: FieldValues<BigNat>)
        requires
            self.wf(),
        ensures
            r.wf(),
            entries_as_nat_big(r.entries()) == unpacked(self@.schema, packed@),
    {
        let ghost d = self@.schema;
        proof {
            self.schema.lemma_wf();
        }
        let infos = self.schema.field_info();
        let n = infos.len();
        let mut result: FieldValues<BigNat> = FieldValues::new();
        let mut k: usize = 0;
        while k < n
            invariant
                n == d.len(),
                k <= n,
                infos.entries() == info_entries(d),
                distinct_names(info_entries(d)),
                result.wf(),
                result.entries().len() == k,
                forall|j: int|
                    0 <= j < k ==> #[trigger] result.entries()[j].0 == d[j].name@
                        && result.entries()[j].1@ == field_of(packed@, d, j),
                sum_bits(d) <= u32::MAX,
            decreases n - k,
        {
            let (name, info) = infos.entry_at(k);
            proof {
                assert(info_entries(d)[k as int] == (d[k as int].name@, info_of(d, k as int)));
                lemma_two_pow_positive(info.bits as nat);
                crate::obfusbit_schema::lemma_sum_bits_skip_monotone(d, 0, k + 1);
                assert(d.skip(0) =~= d);
                crate::packing::lemma_bitand_low_mask(
                    packed@ / two_pow(info.shift as nat),
                    info.bits as nat,
                );
                assert forall|j: int| 0 <= j < result.entries().len() implies result.entries()[j].0
                    != name@ by {
                    assert(info_entries(d)[j].0 != info_entries(d)[k as int].0);
                }
            }
            let mask = BigNat::from_u64(1).shl(info.bits).sub(&BigNat::from_u64(1));
            let value = packed.shr(info.shift).bitand(&mask);
            result.insert(name.clone(), value);
            k = k + 1;
        }
        proof {
            assert(entries_as_nat_big(result.entries()) =~= unpacked(d, packed@));
        }
        result
    }

    /// Packs `BigNat` values into one number, the last field lowest, and with
    /// `obfuscate` returns the key of that number instead.
    pub fn pack_big(&mut self, values: &FieldValues<BigNat>, obfuscate: bool) -> (r: Result<PackedBig, ObfuskeyError>)
        requires
            old(self).wf(),
            values.wf(),
            obfuscate && values_error(old(self)@.schema, values.entries(), nums_big(values.entries())) is None && old(self)@.packed_big(values.entries()) != 0 ==> old(self)@.can_generate(),
        ensures
            final(self).wf(),
            final(self)@ == (if obfuscate && values_error(old(self)@.schema, values.entries(), nums_big(values.entries())) is None {
                old(self)@.after_key_big(old(self)@.packed_big(values.entries()))
            } else {
                old(self)@
            }),
            result_view(r) == old(self)@.pack_big(values.entries(), obfuscate),
    {
        self.schema.validate_values_big(values)?;
        let packed = self.pack_fields_big(values);
        if obfuscate {
            match &mut self.obfuskey {
                Some(ok) => {
                    let key = ok.get_key_big(&packed)?;
                    Ok(PackedBig::Key(key))
                },
                None => Err(no_obfuskey_error()),
            }
        } else {
            Ok(PackedBig::Int(packed))
        }
    }

    /// Reads the number to unpack: `data` itself, or with `obfuscated` the
    /// value of the key that `data` holds.
    fn unpack_source_big(&mut self, data: UnpackDataBig, obfuscated: bool) -> (r: Result<BigNat, ObfuskeyError>)
        requires
            old(self).wf(),
            old(self)@.unpack_needs_multiplier(data@, obfuscated) ==> old(self)@.can_generate(),
        ensures
            final(self).wf(),
            final(self)@ == old(self)@.after_unpack(data@, obfuscated),
            match old(self)@.unpack_source_big(data@, obfuscated) {
                Err(e) => r matches Err(x) && x@ == e,
                Ok(p) => r matches Ok(x) && x@ == p,
            },
    {
        if obfuscated {
            match data {
                UnpackDataBig::Key(k) => match &mut self.obfuskey {
                    Some(ok) => ok.get_value_big(k),
                    None => Err(no_obfuskey_error()),
                },
                UnpackDataBig::Int(_) => Err(ObfuskeyError::ValueError(
                    String::from_str("Expected a string key for obfuscated data."),
                )),
            }
        } else {
            match data {
                UnpackDataBig::Int(i) => Ok(i),
                UnpackDataBig::Key(_) => Err(ObfuskeyError::ValueError(
                    String::from_str("Expected an integer for non-obfuscated data."),
                )),
            }
        }
    }

    /// Unpacks `BigNat` field values from a packed number, or with
    /// `obfuscated` from the key of one; the values come in the order of the
    /// definition.
    pub fn unpack_big(&mut self, data: UnpackDataBig, obfuscated: bool) -> (r: Result<FieldValues<BigNat>, ObfuskeyError>)
        requires
            old(self).wf(),
            old(self)@.unpack_needs_multiplier(data@, obfuscated) ==> old(self)@.can_generate(),
        ensures
            final(self).wf(),
            final(self)@ == old(self)@.after_unpack(data@, obfuscated),
            match old(self)@.unpack_source_big(data@, obfuscated) {
                Err(e) => r matches Err(x) && x@ == e,
                Ok(p) => r matches Ok(v) && v.wf() && entries_as_nat_big(v.entries()) == unpacked(old(self)@.schema, p),
            },
    {
        let packed = self.unpack_source_big(data, obfuscated)?;
        Ok(self.unpack_fields_big(&packed))
    }

    /// Packs `BigNat` values into bytes: the packed number in the fewest
    /// bytes that hold the total width, in the given byte order.
    pub fn pack_bytes_big(&mut self, values: &FieldValues<BigNat>, byteorder: ByteOrder) -> (r: Result<Vec<u8>, ObfuskeyError>)
        requires
            old(self).wf(),
            values.wf(),
        ensures
            *final(self) == *old(self),
            match values_error(old(self)@.schema, values.entries(), nums_big(values.entries())) {
                Some(e) => r matches Err(x) && x@ == e,
                None => r matches Ok(b) && b@.len() == byte_len(sum_bits(old(self)@.schema)) && 8 * (b@.len() - 1) < sum_bits(old(self)@.schema) <= 8 * b@.len()
                    && bytes_be_value(in_be_order(b@, byteorder)) == old(self)@.packed_big(values.entries()),
            },
    {
        let ghost d = self@.schema;
        let ghost e = values.entries();
        self.schema.validate_values_big(values)?;
        let packed = self.pack_fields_big(values);
        let len = self.byte_length();
        let bytes = packed.to_bytes_be();
        proof {
            self.schema.lemma_wf();
            assert(crate::obfusbit_schema::field_ok(d, 0));
            crate::obfusbit_schema::lemma_sum_bits_skip(d, 0);
            assert(d.skip(0) =~= d);
            lemma_accepted_values(d, e, nums_big(e));
            crate::packing::lemma_packed_bound(d, ordered_nums(d, e, nums_big(e)));
            lemma_two_pow_monotone(sum_bits(d), 8 * len as nat);
            if bytes@.len() > len && packed@ > 0 {
                crate::packing::lemma_bytes_be_value_lower(bytes@);
                lemma_two_pow_monotone(8 * len as nat, 8 * (bytes@.len() - 1) as nat);
            }
        }
        let mut be: Vec<u8> = Vec::new();
        let n = bytes.len();
        while be.len() + n < len
            invariant
                n == bytes@.len(),
                n <= len,
                be.len() + n <= len,
                forall|i: int| 0 <= i < be.len() ==> be@[i] == 0,
            decreases len - be.len() - n,
        {
            be.push(0);
        }
        let ghost zeros = be@;
        let mut i: usize = 0;
        while i < n
            invariant
                n == bytes@.len(),
                i <= n,
                be@ == zeros + bytes@.take(i as int),
            decreases n - i,
        {
            be.push(bytes[i]);
            proof {
                assert(be@ =~= zeros + bytes@.take(i + 1));
            }
            i = i + 1;
        }
        proof {
            assert(bytes@.take(n as int) =~= bytes@);
            crate::packing::lemma_bytes_be_value_zeros(zeros, bytes@);
        }
        match byteorder {
            ByteOrder::Big => Ok(be),
            ByteOrder::Little => {
                let le = crate::packing::reversed(be.as_slice());
                proof {
                    crate::packing::lemma_reverse_reverse(be@);
                }
                Ok(le)
            },
        }
    }

    /// Unpacks `BigNat` field values from bytes in the given byte order;
    /// there must be exactly as many bytes as `pack_bytes_big` writes.
    pub fn unpack_bytes_big(&self, data: &[u8], byteorder: ByteOrder) -> (r: Result<FieldValues<BigNat>, ObfuskeyError>)
        requires
            self.wf(),
        ensures
            data@.len() != byte_len(sum_bits(self@.schema)) ==> (r matches Err(x) && x@ == ErrorSpec::Value(
                byte_count_message(byte_len(sum_bits(self@.schema)), data@.len()),
            )),
            data@.len() == byte_len(sum_bits(self@.schema)) ==> (r matches Ok(v) && v.wf()
                && entries_as_nat_big(v.entries()) == unpacked(
                self@.schema,
                bytes_be_value(in_be_order(data@, byteorder)),
            )),
    {
        let expected = self.byte_length();
        if data.len() != expected {
            return Err(byte_count_error(expected, data.len()));
        }
        let be = be_order(data, byteorder);
        let packed = BigNat::from_bytes_be(be.as_slice());
        Ok(self.unpack_fields_big(&packed))
    }
}

// -----------------------------------------------------------------------------
// Laws
// -----------------------------------------------------------------------------
/// Entries with their values replaced by `nums`.
pub open spec fn with_nums<V>(e: Seq<(Seq<char>, V)>, nums: Seq<nat>) -> Seq<(Seq<char>, nat)> {
    Seq::new(e.len(), |j: int| (e[j].0, nums[j]))
}

/// Unpacking the packed number of accepted values gives the same values by
/// name.
pub proof fn lemma_unpack_packed<V>(d: Seq<FieldSchema>, e: Seq<(Seq<char>, V)>, nums: Seq<nat>)
    requires
        schema_error(d) is None,
        distinct_names(e),
        nums.len() == e.len(),
        values_error(d, e, nums) is None,
    ensures
        crate::obfusbit_schema::entries_map(unpacked(d, packed_value(d, ordered_nums(d, e, nums))))
            == crate::obfusbit_schema::entries_map(with_nums(e, nums)),
{
    let vs = ordered_nums(d, e, nums);
    let p = packed_value(d, vs);
    let u = unpacked(d, p);
    let ne = with_nums(e, nums);
    lemma_accepted_values(d, e, nums);
    crate::obfusbit_schema::lemma_valid_fields(d);
    assert(distinct_names(u)) by {
        assert forall|i: int, j: int| 0 <= i < j < u.len() implies u[i].0 != u[j].0 by {
            assert(info_entries(d)[i].0 != info_entries(d)[j].0);
        }
    }
    assert(distinct_names(ne)) by {
        assert forall|i: int, j: int| 0 <= i < j < ne.len() implies ne[i].0 != ne[j].0 by {
            assert(e[i].0 != e[j].0);
        }
    }
    let lhs = crate::obfusbit_schema::entries_map(u);
    let rhs = crate::obfusbit_schema::entries_map(ne);
    assert forall|n: Seq<char>| #[trigger] lhs.dom().contains(n) <==> rhs.dom().contains(n) by {
        if lhs.dom().contains(n) {
            lemma_entry_index_found(u, n);
            let k = crate::obfusbit_schema::entry_index(u, n)->Some_0;
            assert(d[k].name@ == n);
            lemma_entry_index_found(e, n);
            let j = crate::obfusbit_schema::entry_index(e, n)->Some_0;
            assert(ne[j].0 == n);
        }
        if rhs.dom().contains(n) {
            lemma_entry_index_found(ne, n);
            let j = crate::obfusbit_schema::entry_index(ne, n)->Some_0;
            assert(e[j].0 == n);
            assert(crate::obfusbit_schema::field_index(d, e[j].0) is Some);
            lemma_entry_index_found(info_entries(d), n);
            let k = crate::obfusbit_schema::field_index(d, n)->Some_0;
            assert(u[k].0 == n);
        }
    }
    assert forall|n: Seq<char>| #[trigger] lhs.dom().contains(n) implies lhs[n] == rhs[n] by {
        lemma_entry_index_found(u, n);
        let k = crate::obfusbit_schema::entry_index(u, n)->Some_0;
        assert(d[k].name@ == n);
        crate::packing::lemma_field_of_packed(d, vs, k);
        lemma_entry_index_found(e, n);
        let j = crate::obfusbit_schema::entry_index(e, n)->Some_0;
        lemma_entry_index_at(ne, j);
        assert(ne[j].0 == n);
    }
    assert(lhs =~= rhs);
}

/// Unpacking what `pack_u64` packed gives back the values: with at most 64
/// bits in all, values that pass validation pack into a number that unpacks
/// to the same value for every name.
pub proof fn law_unpack_pack_u64(b: ObfusbitModel, e: Seq<(Seq<char>, u64)>)
    requires
        schema_error(b.schema) is None,
        distinct_names(e),
        values_error(b.schema, e, nums_u64(e)) is None,
        sum_bits(b.schema) <= 64,
    ensures
        b.pack_u64(e, false) == Ok::<PackedSpec, ErrorSpec>(PackedSpec::Int(b.packed_u64(e))),
        b.unpack_source_u64(PackedSpec::Int(b.packed_u64(e)), false) == Ok::<nat, ErrorSpec>(
            b.packed_u64(e),
        ),
        crate::obfusbit_schema::entries_map(unpacked(b.schema, b.packed_u64(e)))
            == crate::obfusbit_schema::entries_map(entries_as_nat_u64(e)),
{
    let d = b.schema;
    let vs = ordered_nums(d, e, nums_u64(e));
    lemma_accepted_values(d, e, nums_u64(e));
    crate::packing::lemma_packed_bound(d, vs);
    lemma_two_pow_128();
    lemma_two_pow_monotone(sum_bits(d), 64);
    vstd::arithmetic::div_mod::lemma_small_mod(packed_value(d, vs), two_pow(64));
    lemma_unpack_packed(d, e, nums_u64(e));
    assert(with_nums(e, nums_u64(e)) =~= entries_as_nat_u64(e));
}

/// Unpacking what `pack_big` packed gives back the values: values that pass
/// validation pack into a number, no larger than the schema's maximum, that
/// unpacks to the same value for every name.
pub proof fn law_unpack_pack_big(b: ObfusbitModel, e: Seq<(Seq<char>, BigNat)>)
    requires
        schema_error(b.schema) is None,
        distinct_names(e),
        values_error(b.schema, e, nums_big(e)) is None,
    ensures
        b.pack_big(e, false) == Ok::<PackedSpec, ErrorSpec>(PackedSpec::Int(b.packed_big(e))),
        b.packed_big(e) <= schema_maximum(b.schema),
        b.unpack_source_big(PackedSpec::Int(b.packed_big(e)), false) == Ok::<nat, ErrorSpec>(
            b.packed_big(e),
        ),
        crate::obfusbit_schema::entries_map(unpacked(b.schema, b.packed_big(e)))
            == crate::obfusbit_schema::entries_map(entries_as_nat_big(e)),
{
    let d = b.schema;
    lemma_accepted_values(d, e, nums_big(e));
    crate::packing::lemma_packed_bound(d, ordered_nums(d, e, nums_big(e)));
    lemma_unpack_packed(d, e, nums_big(e));
    assert(with_nums(e, nums_big(e)) =~= entries_as_nat_big(e));
}

/// Unpacking the bytes that `pack_bytes_u64` writes, in the same byte
/// order, gives back the values.
pub proof fn law_unpack_pack_bytes_u64(
    b: ObfusbitModel,
    e: Seq<(Seq<char>, u64)>,
    bytes: Seq<u8>,
    order: ByteOrder,
)
    requires
        schema_error(b.schema) is None,
        distinct_names(e),
        values_error(b.schema, e, nums_u64(e)) is None,
        sum_bits(b.schema) <= 64,
        bytes.len() == byte_len(sum_bits(b.schema)),
        bytes_be_value(in_be_order(bytes, order)) == b.packed_u64(e),
    ensures
        crate::obfusbit_schema::entries_map(
            unpacked(b.schema, bytes_be_value(in_be_order(bytes, order))),
        ) == crate::obfusbit_schema::entries_map(entries_as_nat_u64(e)),
{
    law_unpack_pack_u64(b, e);
}

/// Unpacking the bytes that `pack_bytes_big` writes, in the same byte
/// order, gives back the values.
pub proof fn law_unpack_pack_bytes_big(
    b: ObfusbitModel,
    e: Seq<(Seq<char>, BigNat)>,
    bytes: Seq<u8>,
    order: ByteOrder,
)
    requires
        schema_error(b.schema) is None,
        distinct_names(e),
        values_error(b.schema, e, nums_big(e)) is None,
        bytes.len() == byte_len(sum_bits(b.schema)),
        bytes_be_value(in_be_order(bytes, order)) == b.packed_big(e),
    ensures
        crate::obfusbit_schema::entries_map(
            unpacked(b.schema, bytes_be_value(in_be_order(bytes, order))),
        ) == crate::obfusbit_schema::entries_map(entries_as_nat_big(e)),
{
    law_unpack_pack_big(b, e);
}

/// Unpacking the key that `pack_u64` returns gives back the values: with an
/// obfuscator whose keys can write every packed number and whose multiplier
/// is coprime to its modulus, the key unpacks, after packing fixed the
/// multiplier, to the same value for every name.
pub proof fn law_unpack_pack_obfuscated_u64(b: ObfusbitModel, e: Seq<(Seq<char>, u64)>)
    requires
        schema_error(b.schema) is None,
        distinct_names(e),
        values_error(b.schema, e, nums_u64(e)) is None,
        sum_bits(b.schema) <= 64,
        b.obfuskey matches Some(m) && {
            &&& crate::alphabet::valid_alphabet(m.alphabet)
            &&& schema_maximum(b.schema) <= m.maximum()
            &&& m.multiplier_result() is Ok
            &&& crate::primes::gcd(m.modulus(), m.multiplier_result()->Ok_0 % m.modulus()) == 1
        },
    ensures
        b.pack_u64(e, true) is Ok,
        b.pack_u64(e, true)->Ok_0 is Key,
        b.after_key().unpack_source_u64(b.pack_u64(e, true)->Ok_0, true) == Ok::<nat, ErrorSpec>(
            b.packed_u64(e),
        ),
        crate::obfusbit_schema::entries_map(unpacked(b.schema, b.packed_u64(e)))
            == crate::obfusbit_schema::entries_map(entries_as_nat_u64(e)),
{
    let m = b.obfuskey->Some_0;
    law_unpack_pack_u64(b, e);
    let d = b.schema;
    let p = b.packed_u64(e);
    lemma_accepted_values(d, e, nums_u64(e));
    crate::packing::lemma_packed_bound(d, ordered_nums(d, e, nums_u64(e)));
    lemma_two_pow_128();
    lemma_two_pow_monotone(sum_bits(d), 64);
    crate::obfuskey::law_u64_big_agree(m, p as u64, Seq::empty());
    crate::obfuskey::law_key_value_roundtrip(m, p);
    let k = m.get_key_big(p)->Ok_0;
    crate::obfuskey::law_u64_big_agree(m.after_ensure(), p as u64, k);
    crate::obfuskey::lemma_after_ensure_idempotent(m);
}

/// Unpacking the key that `pack_big` returns gives back the values: with an
/// obfuscator whose keys can write every packed number and whose multiplier
/// is coprime to its modulus, the key unpacks to the same value for every
/// name.
pub proof fn law_unpack_pack_obfuscated_big(b: ObfusbitModel, e: Seq<(Seq<char>, BigNat)>)
    requires
        schema_error(b.schema) is None,
        distinct_names(e),
        values_error(b.schema, e, nums_big(e)) is None,
        b.obfuskey matches Some(m) && {
            &&& crate::alphabet::valid_alphabet(m.alphabet)
            &&& schema_maximum(b.schema) <= m.maximum()
            &&& m.multiplier_result() is Ok
            &&& crate::primes::gcd(m.modulus(), m.multiplier_result()->Ok_0 % m.modulus()) == 1
        },
    ensures
        b.pack_big(e, true) is Ok,
        b.pack_big(e, true)->Ok_0 is Key,
        b.after_key_big(b.packed_big(e)).unpack_source_big(b.pack_big(e, true)->Ok_0, true) == Ok::<
            nat,
            ErrorSpec,
        >(b.packed_big(e)),
        crate::obfusbit_schema::entries_map(unpacked(b.schema, b.packed_big(e)))
            == crate::obfusbit_schema::entries_map(entries_as_nat_big(e)),
{
    let m = b.obfuskey->Some_0;
    law_unpack_pack_big(b, e);
    crate::obfuskey::law_key_value_roundtrip(m, b.packed_big(e));
}

/// The bytes of a packed number are the fewest that hold the total width:
/// `8 * (len - 1) < total <= 8 * len`.
pub proof fn law_byte_len_fewest(total: nat)
    requires
        total > 0,
    ensures
        byte_len(total) >= 1,
        8 * (byte_len(total) - 1) < total <= 8 * byte_len(total),
{
}

} // verus!
