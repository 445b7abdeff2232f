//! Deterministic identity of durable definitions: a canonical byte encoding
//! — field name, a colon, the value, a NUL — hashed into a UUIDv5 under a
//! fixed namespace. Parameter maps are serialized with their keys sorted,
//! so the identity is a pure function of the definition.

use vstd::prelude::*;
use vstd::string::StringSliceAdditionalSpecFns;

use crate::market_data::CandleResolution;
use crate::params::ParamValue;
use crate::position_manager::PositionManagerInstanceDefinition;
use crate::strategy::{PlaceOrderSettings, StrategyInstanceDefinition};

verus! {

/// What `uuid::Uuid::new_v5` computes from a namespace and bytes, as a
/// 128-bit value; it depends on its arguments alone.
pub uninterp spec fn uuid_v5_of(ns: u128, data: Seq<u8>) -> u128;

/// The standard OID namespace, `6ba7b812-9dad-11d1-80b4-00c04fd430c8`.
pub const UUID_NAMESPACE_OID: u128 = 0x6ba7b8129dad11d180b400c04fd430c8;

/// Relies on `uuid::Uuid::new_v5`: a deterministic, SHA-1-based UUID of the
/// namespace and the name bytes.
#[verifier::external_body]
pub(crate) fn uuid_v5(ns: u128, data: &[u8]) -> (r: u128)
    ensures
        r == uuid_v5_of(ns, data@),
{
    uuid::Uuid::new_v5(&uuid::Uuid::from_u128(ns), data).as_u128()
}

/// ASCII colon, the separator between a field name and its value.
pub const FIELD_SEPARATOR: u8 = 58;

/// One serialized field: name, colon, value, NUL.
pub open spec fn spec_field(key: Seq<u8>, value: Seq<u8>) -> Seq<u8> {
    key + seq![FIELD_SEPARATOR] + value + seq![0u8]
}

/// Little-endian bytes of an unsigned 32-bit value.
pub open spec fn spec_u32_le(v: u32) -> Seq<u8> {
    seq![
        (v & 0xff) as u8,
        ((v >> 8) & 0xff) as u8,
        ((v >> 16) & 0xff) as u8,
        ((v >> 24) & 0xff) as u8,
    ]
}

/// Little-endian bytes of an unsigned 64-bit value.
pub open spec fn spec_u64_le(v: u64) -> Seq<u8> {
    seq![
        (v & 0xff) as u8,
        ((v >> 8) & 0xff) as u8,
        ((v >> 16) & 0xff) as u8,
        ((v >> 24) & 0xff) as u8,
        ((v >> 32) & 0xff) as u8,
        ((v >> 40) & 0xff) as u8,
        ((v >> 48) & 0xff) as u8,
        ((v >> 56) & 0xff) as u8,
    ]
}

/// Little-endian two's-complement bytes of a signed 64-bit value.
pub open spec fn spec_i64_le(v: i64) -> Seq<u8> {
    spec_u64_le(v as u64)
}

/// Big-endian bytes of a 128-bit identity, as a UUID writes itself.
pub open spec fn spec_u128_be(v: u128) -> Seq<u8> {
    seq![
        ((v >> 120) & 0xff) as u8,
        ((v >> 112) & 0xff) as u8,
        ((v >> 104) & 0xff) as u8,
        ((v >> 96) & 0xff) as u8,
        ((v >> 88) & 0xff) as u8,
        ((v >> 80) & 0xff) as u8,
        ((v >> 72) & 0xff) as u8,
        ((v >> 64) & 0xff) as u8,
        ((v >> 56) & 0xff) as u8,
        ((v >> 48) & 0xff) as u8,
        ((v >> 40) & 0xff) as u8,
        ((v >> 32) & 0xff) as u8,
        ((v >> 24) & 0xff) as u8,
        ((v >> 16) & 0xff) as u8,
        ((v >> 8) & 0xff) as u8,
        (v & 0xff) as u8,
    ]
}

/// Append the little-endian bytes of an unsigned 32-bit value.
pub fn push_u32_le(dst: &mut Vec<u8>, v: u32)
    ensures
        final(dst)@ == old(dst)@ + spec_u32_le(v),
{
    dst.push((v & 0xff) as u8);
    dst.push(((v >> 8) & 0xff) as u8);
    dst.push(((v >> 16) & 0xff) as u8);
    dst.push(((v >> 24) & 0xff) as u8);
    proof {
        assert(dst@ =~= old(dst)@ + spec_u32_le(v));
    }
}

/// Append the little-endian bytes of an unsigned 64-bit value — the form an
/// IEEE-754 bit pattern is serialized in.
pub fn push_u64_le(dst: &mut Vec<u8>, v: u64)
    ensures
        final(dst)@ == old(dst)@ + spec_u64_le(v),
{
    dst.push((v & 0xff) as u8);
    dst.push(((v >> 8) & 0xff) as u8);
    dst.push(((v >> 16) & 0xff) as u8);
    dst.push(((v >> 24) & 0xff) as u8);
    dst.push(((v >> 32) & 0xff) as u8);
    dst.push(((v >> 40) & 0xff) as u8);
    dst.push(((v >> 48) & 0xff) as u8);
    dst.push(((v >> 56) & 0xff) as u8);
    proof {
        assert(dst@ =~= old(dst)@ + spec_u64_le(v));
    }
}

/// Append the little-endian two's-complement bytes of a signed 64-bit
/// value.
pub fn push_i64_le(dst: &mut Vec<u8>, v: i64)
    ensures
        final(dst)@ == old(dst)@ + spec_i64_le(v),
{
    let u: u64 = v as u64;
    dst.push((u & 0xff) as u8);
    dst.push(((u >> 8) & 0xff) as u8);
    dst.push(((u >> 16) & 0xff) as u8);
    dst.push(((u >> 24) & 0xff) as u8);
    dst.push(((u >> 32) & 0xff) as u8);
    dst.push(((u >> 40) & 0xff) as u8);
    dst.push(((u >> 48) & 0xff) as u8);
    dst.push(((u >> 56) & 0xff) as u8);
    proof {
        assert(dst@ =~= old(dst)@ + spec_i64_le(v));
    }
}

/// Append the big-endian bytes of a 128-bit identity.
pub fn push_u128_be(dst: &mut Vec<u8>, v: u128)
    ensures
        final(dst)@ == old(dst)@ + spec_u128_be(v),
{
    dst.push(((v >> 120) & 0xff) as u8);
    dst.push(((v >> 112) & 0xff) as u8);
    dst.push(((v >> 104) & 0xff) as u8);
    dst.push(((v >> 96) & 0xff) as u8);
    dst.push(((v >> 88) & 0xff) as u8);
    dst.push(((v >> 80) & 0xff) as u8);
    dst.push(((v >> 72) & 0xff) as u8);
    dst.push(((v >> 64) & 0xff) as u8);
    dst.push(((v >> 56) & 0xff) as u8);
    dst.push(((v >> 48) & 0xff) as u8);
    dst.push(((v >> 40) & 0xff) as u8);
    dst.push(((v >> 32) & 0xff) as u8);
    dst.push(((v >> 24) & 0xff) as u8);
    dst.push(((v >> 16) & 0xff) as u8);
    dst.push(((v >> 8) & 0xff) as u8);
    dst.push((v & 0xff) as u8);
    proof {
        assert(dst@ =~= old(dst)@ + spec_u128_be(v));
    }
}

/// Append a byte slice.
pub fn push_bytes(dst: &mut Vec<u8>, src: &[u8])
    ensures
        final(dst)@ == old(dst)@ + src@,
{
    let n = src.len();
    let mut i: usize = 0;
    while i < n
        invariant
            i <= n,
            n == src@.len(),
            dst@ == old(dst)@ + src@.take(i as int),
        decreases n - i,
    {
        dst.push(src[i]);
        proof {
            assert(src@.take(i as int + 1) =~= src@.take(i as int).push(src@[i as int]));
        }
        i += 1;
    }
    proof {
        assert(src@.take(n as int) =~= src@);
    }
}

/// Builds the canonical byte encoding: for each field, the field name, an
/// ASCII colon, the value bytes, and a NUL terminator.
pub struct IdGenerator {
    pub bytes: Vec<u8>,
}

impl IdGenerator {
    pub fn new() -> (r: Self)
        ensures
            r.bytes@.len() == 0,
    {
        IdGenerator { bytes: Vec::new() }
    }

    /// Append one field.
    pub fn add(&mut self, key: &str, value: &[u8])
        ensures
            final(self).bytes@ == old(self).bytes@ + spec_field(key.spec_bytes(), value@),
    {
        push_bytes(&mut self.bytes, key.as_bytes());
        self.bytes.push(FIELD_SEPARATOR);
        push_bytes(&mut self.bytes, value);
        self.bytes.push(0);
        proof {
            assert(self.bytes@ =~= old(self).bytes@ + spec_field(key.spec_bytes(), value@));
        }
    }

    /// Append one optional field; an absent value serializes as the literal
    /// `<None>`.
    pub fn add_opt(&mut self, key: &str, value: Option<&[u8]>)
        ensures
            final(self).bytes@ == old(self).bytes@ + spec_field(
                key.spec_bytes(),
                match value {
                    Some(v) => v@,
                    None => "<None>".spec_bytes(),
                },
            ),
    {
        match value {
            Some(v) => self.add(key, v),
            None => self.add(key, "<None>".as_bytes()),
        }
    }

    /// Hash the accumulated bytes under the namespace.
    pub fn generate(self, ns: u128) -> (r: u128)
        ensures
            r == uuid_v5_of(ns, self.bytes@),
    {
        uuid_v5(ns, self.bytes.as_slice())
    }
}

/// The namespace for strategy instance identities.
pub fn get_strategy_instance_ns() -> (r: u128)
    ensures
        r == uuid_v5_of(UUID_NAMESPACE_OID, "strategyInstanceId".spec_bytes()),
{
    uuid_v5(UUID_NAMESPACE_OID, "strategyInstanceId".as_bytes())
}

/// The namespace for place-order settings identities.
pub fn get_place_order_settings_ns() -> (r: u128)
    ensures
        r == uuid_v5_of(UUID_NAMESPACE_OID, "placeOrderSettings".spec_bytes()),
{
    uuid_v5(UUID_NAMESPACE_OID, "placeOrderSettings".as_bytes())
}

/// The namespace for parameter-set identities.
pub fn get_params_set_ns() -> (r: u128)
    ensures
        r == uuid_v5_of(UUID_NAMESPACE_OID, "paramsSet".spec_bytes()),
{
    uuid_v5(UUID_NAMESPACE_OID, "paramsSet".as_bytes())
}

/// The namespace for position-manager instance identities.
pub fn get_position_manager_instance_ns() -> (r: u128)
    ensures
        r == uuid_v5_of(UUID_NAMESPACE_OID, "Position Manager Instance Id".spec_bytes()),
{
    uuid_v5(UUID_NAMESPACE_OID, "Position Manager Instance Id".as_bytes())
}

/// The UTF-8 bytes of a string value.
pub open spec fn str_bytes(s: Seq<char>) -> Seq<u8> {
    vstd::utf8::encode_utf8(s)
}

/// Byte-wise lexicographic order: the order parameter names are sorted in.
pub open spec fn lex_le(a: Seq<u8>, b: Seq<u8>) -> bool
    decreases a.len(),
{
    if a.len() == 0 {
        true
    } else if b.len() == 0 {
        false
    } else if a.first() < b.first() {
        true
    } else if a.first() > b.first() {
        false
    } else {
        lex_le(a.drop_first(), b.drop_first())
    }
}

/// Any two byte strings are ordered.
pub proof fn lemma_lex_total(a: Seq<u8>, b: Seq<u8>)
    ensures
        lex_le(a, b) || lex_le(b, a),
    decreases a.len(),
{
    if a.len() > 0 && b.len() > 0 && a.first() == b.first() {
        lemma_lex_total(a.drop_first(), b.drop_first());
    }
}

/// Mutually ordered byte strings are equal.
pub proof fn lemma_lex_antisym(a: Seq<u8>, b: Seq<u8>)
    requires
        lex_le(a, b),
        lex_le(b, a),
    ensures
        a == b,
    decreases a.len(),
{
    if a.len() > 0 && b.len() > 0 && a.first() == b.first() {
        lemma_lex_antisym(a.drop_first(), b.drop_first());
        assert(a =~= seq![a.first()] + a.drop_first());
        assert(b =~= seq![b.first()] + b.drop_first());
    } else {
        assert(a.len() == 0 && b.len() == 0);
        assert(a =~= b);
    }
}

/// The order chains.
pub proof fn lemma_lex_trans(a: Seq<u8>, b: Seq<u8>, c: Seq<u8>)
    requires
        lex_le(a, b),
        lex_le(b, c),
    ensures
        lex_le(a, c),
    decreases a.len(),
{
    if a.len() > 0 && b.len() > 0 && c.len() > 0 && a.first() == b.first() && b.first()
        == c.first() {
        lemma_lex_trans(a.drop_first(), b.drop_first(), c.drop_first());
    }
}

/// Compare two byte strings lexicographically.
pub fn bytes_le(a: &[u8], b: &[u8]) -> (r: bool)
    ensures
        r == lex_le(a@, b@),
{
    let na = a.len();
    let nb = b.len();
    let mut i: usize = 0;
    proof {
        assert(a@.skip(0) =~= a@);
        assert(b@.skip(0) =~= b@);
    }
    while i < na && i < nb
        invariant
            i <= na,
            i <= nb,
            na == a@.len(),
            nb == b@.len(),
            lex_le(a@, b@) == lex_le(a@.skip(i as int), b@.skip(i as int)),
        decreases na - i,
    {
        proof {
            assert(a@.skip(i as int).first() == a@[i as int]);
            assert(b@.skip(i as int).first() == b@[i as int]);
            assert(a@.skip(i as int).drop_first() =~= a@.skip(i as int + 1));
            assert(b@.skip(i as int).drop_first() =~= b@.skip(i as int + 1));
        }
        if a[i] < b[i] {
            return true;
        }
        if a[i] > b[i] {
            return false;
        }
        i += 1;
    }
    i == na
}

/// Names sorted lexicographically by their UTF-8 bytes.
pub open spec fn sorted_by_name_bytes(s: Seq<(String, ParamValue)>) -> bool {
    forall|i: int, j: int|
        0 <= i < j < s.len() ==> lex_le(
            str_bytes((#[trigger] s[i]).0@),
            str_bytes((#[trigger] s[j]).0@),
        )
}

/// Sort parameters by name, byte-lexicographically, keeping the multiset of
/// entries.
pub fn sort_params(params: Vec<(String, ParamValue)>) -> (out: Vec<(String, ParamValue)>)
    ensures
        out@.to_multiset() == params@.to_multiset(),
        sorted_by_name_bytes(out@),
{
    broadcast use vstd::seq_lib::group_to_multiset_ensures;

    let ghost orig = params@;
    let mut remaining = params;
    let mut out: Vec<(String, ParamValue)> = Vec::new();
    proof {
        assert(out@.to_multiset().add(remaining@.to_multiset()) =~= orig.to_multiset());
    }
    while remaining.len() > 0
        invariant
            out@.to_multiset().add(remaining@.to_multiset()) == orig.to_multiset(),
            sorted_by_name_bytes(out@),
        decreases remaining@.len(),
    {
        let ghost pre_remaining = remaining@;
        let item = remaining.remove(0);
        let mut p: usize = 0;
        while p < out.len() && bytes_le(out[p].0.as_str().as_bytes(), item.0.as_str().as_bytes())
            invariant
                p <= out@.len(),
                forall|k: int|
                    0 <= k < p ==> lex_le(str_bytes((#[trigger] out@[k]).0@), str_bytes(item.0@)),
            decreases out@.len() - p,
        {
            p += 1;
        }
        let ghost pre_out = out@;
        let ghost x = item;
        out.insert(p, item);
        proof {
            broadcast use vstd::multiset::group_multiset_axioms;

            vstd::seq_lib::to_multiset_remove(pre_remaining, 0);
            vstd::seq_lib::to_multiset_insert(pre_out, p as int, pre_remaining[0]);
            assert(pre_remaining.contains(pre_remaining[0]));
            vstd::seq_lib::to_multiset_contains(pre_remaining, pre_remaining[0]);
            assert(out@.to_multiset().add(remaining@.to_multiset()) =~= orig.to_multiset());
            if (p as int) < pre_out.len() {
                assert(!lex_le(str_bytes(pre_out[p as int].0@), str_bytes(x.0@)));
                lemma_lex_total(str_bytes(pre_out[p as int].0@), str_bytes(x.0@));
            }
            assert forall|k: int, l: int| 0 <= k < l < out@.len() implies lex_le(
                str_bytes((#[trigger] out@[k]).0@),
                str_bytes((#[trigger] out@[l]).0@),
            ) by {
                if l < p {
                    assert(out@[k] == pre_out[k] && out@[l] == pre_out[l]);
                } else if k > p {
                    assert(out@[k] == pre_out[k - 1] && out@[l] == pre_out[l - 1]);
                } else if k < p && l == p {
                    assert(out@[k] == pre_out[k]);
                } else if k == p && l > p {
                    assert(out@[l] == pre_out[l - 1]);
                    if l - 1 > p {
                        assert(lex_le(
                            str_bytes(pre_out[p as int].0@),
                            str_bytes(pre_out[l - 1].0@),
                        ));
                        lemma_lex_trans(
                            str_bytes(x.0@),
                            str_bytes(pre_out[p as int].0@),
                            str_bytes(pre_out[l - 1].0@),
                        );
                    }
                } else {
                    assert(out@[k] == pre_out[k] && out@[l] == pre_out[l - 1]);
                    if k < l - 1 {
                        assert(lex_le(str_bytes(pre_out[k].0@), str_bytes(pre_out[l - 1].0@)));
                    }
                }
            }
        }
    }
    out
}

/// Parameter names never repeat, compared by their bytes.
pub open spec fn distinct_param_names(s: Seq<(String, ParamValue)>) -> bool {
    forall|i: int, j: int|
        0 <= i < j < s.len() ==> str_bytes((#[trigger] s[i]).0@) != str_bytes((#[trigger] s[j]).0@)
}

/// Name distinctness carries across permutation.
proof fn lemma_distinct_names_of_multiset(p: Seq<(String, ParamValue)>, s: Seq<(String, ParamValue)>)
    requires
        distinct_param_names(p),
        s.to_multiset() == p.to_multiset(),
    ensures
        distinct_param_names(s),
{
    broadcast use vstd::seq_lib::group_to_multiset_ensures;
    broadcast use vstd::multiset::group_multiset_axioms;

    assert forall|i: int, j: int| 0 <= i < j < p.len() implies #[trigger] p[i] != #[trigger] p[j] by {
        assert(str_bytes(p[i].0@) != str_bytes(p[j].0@));
    }
    p.lemma_multiset_has_no_duplicates();
    assert forall|x: (String, ParamValue)|
        s.to_multiset().contains(x) implies s.to_multiset().count(x) == 1 by {
        assert(p.to_multiset().contains(x));
    }
    s.lemma_multiset_has_no_duplicates_conv();
    assert forall|i: int, j: int| 0 <= i < j < s.len() implies str_bytes((#[trigger] s[i]).0@)
        != str_bytes((#[trigger] s[j]).0@) by {
        if str_bytes(s[i].0@) == str_bytes(s[j].0@) {
            // Both entries come from `p`, whose names are distinct; and they
            // cannot be the same entry twice, since `s` has no duplicates.
            assert(s[i] != s[j]);
            assert(s.contains(s[i]));
            assert(s.to_multiset().count(s[i]) > 0);
            assert(p.to_multiset().count(s[i]) > 0);
            assert(p.contains(s[i]));
            assert(s.contains(s[j]));
            assert(s.to_multiset().count(s[j]) > 0);
            assert(p.to_multiset().count(s[j]) > 0);
            assert(p.contains(s[j]));
            let a = choose|a: int| 0 <= a < p.len() && p[a] == s[i];
            let b = choose|b: int| 0 <= b < p.len() && p[b] == s[j];
            if a < b {
                assert(str_bytes(p[a].0@) != str_bytes(p[b].0@));
            } else if b < a {
                assert(str_bytes(p[b].0@) != str_bytes(p[a].0@));
            }
        }
    }
}

/// Two sorted sequences with distinct names and the same entries are the
/// same sequence: the sorted form of a parameter map is unique.
proof fn lemma_sorted_params_unique(s1: Seq<(String, ParamValue)>, s2: Seq<(String, ParamValue)>)
    requires
        sorted_by_name_bytes(s1),
        sorted_by_name_bytes(s2),
        distinct_param_names(s1),
        distinct_param_names(s2),
        s1.to_multiset() == s2.to_multiset(),
    ensures
        s1 == s2,
    decreases s1.len(),
{
    broadcast use vstd::seq_lib::group_to_multiset_ensures;
    broadcast use vstd::multiset::group_multiset_axioms;

    vstd::seq_lib::to_multiset_len(s1);
    vstd::seq_lib::to_multiset_len(s2);
    if s1.len() == 0 {
        assert(s1 =~= s2);
    } else {
        // The heads carry the least name on both sides, so they are equal.
        assert(s1.contains(s1[0]));
        assert(s1.to_multiset().count(s1[0]) > 0);
        assert(s2.to_multiset().count(s1[0]) > 0);
        assert(s2.contains(s1[0]));
        let j = choose|j: int| 0 <= j < s2.len() && s2[j] == s1[0];
        assert(s2.contains(s2[0]));
        assert(s2.to_multiset().count(s2[0]) > 0);
        assert(s1.to_multiset().count(s2[0]) > 0);
        assert(s1.contains(s2[0]));
        let i = choose|i: int| 0 <= i < s1.len() && s1[i] == s2[0];
        if i == 0 || j == 0 {
            assert(s1[0] == s2[0]);
        } else {
            // Both heads carry the least name, so the names agree; distinct
            // names then force the heads to sit at position zero on both
            // sides.
            assert(lex_le(str_bytes(s2[0].0@), str_bytes(s2[j].0@)));
            assert(lex_le(str_bytes(s1[0].0@), str_bytes(s1[i].0@)));
            lemma_lex_antisym(str_bytes(s1[0].0@), str_bytes(s2[0].0@));
            assert(str_bytes(s2[0].0@) != str_bytes(s2[j].0@));
            assert(false);
        }
        assert(s1[0] == s2[0]);
        assert(s1.drop_first() =~= s1.remove(0));
        assert(s2.drop_first() =~= s2.remove(0));
        vstd::seq_lib::to_multiset_remove(s1, 0);
        vstd::seq_lib::to_multiset_remove(s2, 0);
        assert(s1.drop_first().to_multiset() == s1.to_multiset().remove(s1[0]));
        assert(s2.drop_first().to_multiset() == s2.to_multiset().remove(s2[0]));
        assert forall|a: int, b: int| 0 <= a < b < s1.drop_first().len() implies str_bytes(
            (#[trigger] s1.drop_first()[a]).0@,
        ) != str_bytes((#[trigger] s1.drop_first()[b]).0@) by {
            assert(s1.drop_first()[a] == s1[a + 1] && s1.drop_first()[b] == s1[b + 1]);
        }
        assert forall|a: int, b: int| 0 <= a < b < s2.drop_first().len() implies str_bytes(
            (#[trigger] s2.drop_first()[a]).0@,
        ) != str_bytes((#[trigger] s2.drop_first()[b]).0@) by {
            assert(s2.drop_first()[a] == s2[a + 1] && s2.drop_first()[b] == s2[b + 1]);
        }
        assert forall|a: int, b: int| 0 <= a < b < s1.drop_first().len() implies lex_le(
            str_bytes((#[trigger] s1.drop_first()[a]).0@),
            str_bytes((#[trigger] s1.drop_first()[b]).0@),
        ) by {
            assert(s1.drop_first()[a] == s1[a + 1] && s1.drop_first()[b] == s1[b + 1]);
        }
        assert forall|a: int, b: int| 0 <= a < b < s2.drop_first().len() implies lex_le(
            str_bytes((#[trigger] s2.drop_first()[a]).0@),
            str_bytes((#[trigger] s2.drop_first()[b]).0@),
        ) by {
            assert(s2.drop_first()[a] == s2[a + 1] && s2.drop_first()[b] == s2[b + 1]);
        }
        lemma_sorted_params_unique(s1.drop_first(), s2.drop_first());
        assert(s1 =~= seq![s1[0]] + s1.drop_first());
        assert(s2 =~= seq![s2[0]] + s2.drop_first());
    }
}

/// The canonical bytes of one parameter: its name, then a tagged value.
pub open spec fn spec_param_entry_bytes(e: (String, ParamValue)) -> Seq<u8> {
    spec_field(str_bytes("paramName"@), str_bytes(e.0@)) + match e.1 {
        ParamValue::Instrument(f) => spec_field(str_bytes("figi"@), str_bytes(f.0@)),
        ParamValue::Integer(v) => spec_field(str_bytes("integer"@), spec_i64_le(v)),
        ParamValue::Float(v) => spec_field(str_bytes("float"@), spec_u64_le(v)),
        ParamValue::Boolean(b) => spec_field(
            str_bytes("boolean"@),
            seq![
                if b {
                    1u8
                } else {
                    0u8
                },
            ],
        ),
    }
}

/// The canonical bytes of a sorted parameter list.
pub open spec fn spec_params_bytes(s: Seq<(String, ParamValue)>) -> Seq<u8>
    decreases s.len(),
{
    if s.len() == 0 {
        Seq::empty()
    } else {
        spec_params_bytes(s.drop_last()) + spec_param_entry_bytes(s.last())
    }
}

/// How a parameter set's identity relates to the set: the hash of the
/// canonical bytes of its entries sorted by name.
pub open spec fn spec_params_id_rel(p: Seq<(String, ParamValue)>, r: u128) -> bool {
    exists|sorted: Seq<(String, ParamValue)>|
        {
            &&& sorted.to_multiset() == p.to_multiset()
            &&& sorted_by_name_bytes(sorted)
            &&& r == uuid_v5_of(
                uuid_v5_of(UUID_NAMESPACE_OID, str_bytes("paramsSet"@)),
                #[trigger] spec_params_bytes(sorted),
            )
        }
}

/// The identity of a parameter set: sort by name, serialize each entry with
/// its type tag, hash under the parameter-set namespace.
pub fn params_set_id(params: Vec<(String, ParamValue)>) -> (r: u128)
    ensures
        spec_params_id_rel(params@, r),
{
    let ghost orig = params@;
    let sorted = sort_params(params);
    let ghost sorted_seq = sorted@;
    let mut generator = IdGenerator::new();
    let n = sorted.len();
    let mut i: usize = 0;
    proof {
        assert(generator.bytes@ =~= spec_params_bytes(sorted_seq.take(0)));
    }
    while i < n
        invariant
            i <= n,
            n == sorted@.len(),
            sorted@ == sorted_seq,
            generator.bytes@ == spec_params_bytes(sorted_seq.take(i as int)),
        decreases n - i,
    {
        proof {
            assert(sorted_seq.take(i as int + 1).drop_last() =~= sorted_seq.take(i as int));
            assert(sorted_seq.take(i as int + 1).last() == sorted_seq[i as int]);
        }
        generator.add("paramName", sorted[i].0.as_str().as_bytes());
        match &sorted[i].1 {
            ParamValue::Instrument(f) => {
                generator.add("figi", f.0.as_str().as_bytes());
            },
            ParamValue::Integer(v) => {
                let mut buf: Vec<u8> = Vec::new();
                push_i64_le(&mut buf, *v);
                generator.add("integer", buf.as_slice());
            },
            ParamValue::Float(v) => {
                let mut buf: Vec<u8> = Vec::new();
                push_u64_le(&mut buf, *v);
                generator.add("float", buf.as_slice());
            },
            ParamValue::Boolean(b) => {
                let mut buf: Vec<u8> = Vec::new();
                buf.push(if *b { 1 } else { 0 });
                generator.add("boolean", buf.as_slice());
            },
        }
        proof {
            assert(generator.bytes@ =~= spec_params_bytes(sorted_seq.take(i as int + 1)));
        }
        i += 1;
    }
    proof {
        assert(sorted_seq.take(n as int) =~= sorted_seq);
    }
    let ns = get_params_set_ns();
    let r = generator.generate(ns);
    proof {
        // `sorted_seq` is the witness for the identity relation.
        assert(spec_params_id_rel(orig, r));
    }
    r
}

/// Identity stability: two parameter lists with the same entries — any
/// iteration order of the same map — have the same identity, provided names
/// never repeat.
pub proof fn lemma_params_id_stable(
    p1: Seq<(String, ParamValue)>,
    p2: Seq<(String, ParamValue)>,
    r1: u128,
    r2: u128,
)
    requires
        distinct_param_names(p1),
        p1.to_multiset() == p2.to_multiset(),
        spec_params_id_rel(p1, r1),
        spec_params_id_rel(p2, r2),
    ensures
        r1 == r2,
{
    let s1 = choose|sorted: Seq<(String, ParamValue)>|
        {
            &&& sorted.to_multiset() == p1.to_multiset()
            &&& sorted_by_name_bytes(sorted)
            &&& r1 == uuid_v5_of(
                uuid_v5_of(UUID_NAMESPACE_OID, str_bytes("paramsSet"@)),
                #[trigger] spec_params_bytes(sorted),
            )
        };
    let s2 = choose|sorted: Seq<(String, ParamValue)>|
        {
            &&& sorted.to_multiset() == p2.to_multiset()
            &&& sorted_by_name_bytes(sorted)
            &&& r2 == uuid_v5_of(
                uuid_v5_of(UUID_NAMESPACE_OID, str_bytes("paramsSet"@)),
                #[trigger] spec_params_bytes(sorted),
            )
        };
    lemma_distinct_names_of_multiset(p1, s1);
    lemma_distinct_names_of_multiset(p1, s2);
    lemma_sorted_params_unique(s1, s2);
}

/// Copy a parameter list.
pub fn clone_params(params: &Vec<(String, ParamValue)>) -> (r: Vec<(String, ParamValue)>)
    ensures
        r@ == params@,
{
    let mut out: Vec<(String, ParamValue)> = Vec::new();
    let n = params.len();
    let mut i: usize = 0;
    while i < n
        invariant
            i <= n,
            n == params@.len(),
            out@ =~= params@.take(i as int),
        decreases n - i,
    {
        let name = params[i].0.clone();
        let value = params[i].1.clone();
        out.push((name, value));
        proof {
            assert(out@ =~= params@.take(i as int + 1));
        }
        i += 1;
    }
    proof {
        assert(params@.take(n as int) =~= params@);
    }
    out
}

/// The canonical bytes of the order-placement settings.
pub open spec fn spec_place_order_bytes(s: PlaceOrderSettings) -> Seq<u8> {
    spec_field(str_bytes("accountId"@), str_bytes(s.account_id.0@)) + spec_field(
        str_bytes("buyThreshold"@),
        match s.buy_threshold {
            Some(v) => spec_u64_le(v),
            None => str_bytes("<None>"@),
        },
    ) + spec_field(
        str_bytes("sellThreshold"@),
        match s.sell_threshold {
            Some(v) => spec_u64_le(v),
            None => str_bytes("<None>"@),
        },
    ) + spec_field(str_bytes("stopLossOffset"@), spec_u32_le(s.stop_loss_offset)) + spec_field(
        str_bytes("takeProfitOffset"@),
        spec_u32_le(s.take_profit_offset),
    ) + spec_field(str_bytes("interval_length"@), spec_u32_le(s.interval_length))
}

/// Append the little-endian bytes of an unsigned 32-bit value into a fresh
/// buffer.
fn u32_le_buf(v: u32) -> (r: Vec<u8>)
    ensures
        r@ == spec_u32_le(v),
{
    let mut buf: Vec<u8> = Vec::new();
    push_u32_le(&mut buf, v);
    proof {
        assert(buf@ =~= spec_u32_le(v));
    }
    buf
}

/// The little-endian bytes of a signed 64-bit value in a fresh buffer.
fn i64_le_buf(v: i64) -> (r: Vec<u8>)
    ensures
        r@ == spec_i64_le(v),
{
    let mut buf: Vec<u8> = Vec::new();
    push_i64_le(&mut buf, v);
    proof {
        assert(buf@ =~= spec_i64_le(v));
    }
    buf
}

/// The little-endian bytes of an unsigned 64-bit value in a fresh buffer.
fn u64_le_buf(v: u64) -> (r: Vec<u8>)
    ensures
        r@ == spec_u64_le(v),
{
    let mut buf: Vec<u8> = Vec::new();
    push_u64_le(&mut buf, v);
    proof {
        assert(buf@ =~= spec_u64_le(v));
    }
    buf
}

/// The big-endian bytes of a 128-bit identity in a fresh buffer.
fn u128_be_buf(v: u128) -> (r: Vec<u8>)
    ensures
        r@ == spec_u128_be(v),
{
    let mut buf: Vec<u8> = Vec::new();
    push_u128_be(&mut buf, v);
    proof {
        assert(buf@ =~= spec_u128_be(v));
    }
    buf
}

impl PlaceOrderSettings {
    /// The settings' identity: the hash of their canonical bytes under the
    /// settings namespace.
    pub fn id(&self) -> (r: u128)
        ensures
            r == uuid_v5_of(
                uuid_v5_of(UUID_NAMESPACE_OID, str_bytes("placeOrderSettings"@)),
                spec_place_order_bytes(*self),
            ),
    {
        let mut generator = IdGenerator::new();
        generator.add("accountId", self.account_id.0.as_str().as_bytes());
        match self.buy_threshold {
            Some(v) => {
                let buf = u64_le_buf(v);
                generator.add_opt("buyThreshold", Some(buf.as_slice()));
            },
            None => {
                generator.add_opt("buyThreshold", None);
            },
        }
        match self.sell_threshold {
            Some(v) => {
                let buf = u64_le_buf(v);
                generator.add_opt("sellThreshold", Some(buf.as_slice()));
            },
            None => {
                generator.add_opt("sellThreshold", None);
            },
        }
        let b1 = u32_le_buf(self.stop_loss_offset);
        generator.add("stopLossOffset", b1.as_slice());
        let b2 = u32_le_buf(self.take_profit_offset);
        generator.add("takeProfitOffset", b2.as_slice());
        let b3 = u32_le_buf(self.interval_length);
        generator.add("interval_length", b3.as_slice());
        proof {
            assert(generator.bytes@ =~= spec_place_order_bytes(*self));
        }
        let ns = get_place_order_settings_ns();
        generator.generate(ns)
    }
}

/// The stable byte name of a resolution.
pub open spec fn spec_resolution_name_bytes(r: CandleResolution) -> Seq<u8> {
    match r {
        CandleResolution::OneMinute => str_bytes("oneMinute"@),
        CandleResolution::OneHour => str_bytes("oneHour"@),
        CandleResolution::OneDay => str_bytes("oneDay"@),
    }
}

/// The canonical bytes of a strategy instance definition, given the
/// identities of its parameter set and optional settings.
pub open spec fn spec_strategy_instance_bytes(
    d: StrategyInstanceDefinition,
    params_id: u128,
    settings_id: Option<u128>,
) -> Seq<u8> {
    spec_field(str_bytes("strategyName"@), str_bytes(d.strategy_name@)) + spec_field(
        str_bytes("params"@),
        spec_u128_be(params_id),
    ) + spec_field(str_bytes("timeFrom"@), spec_i64_le(d.time_from)) + spec_field(
        str_bytes("timeTo"@),
        match d.time_to {
            Some(t) => spec_i64_le(t),
            None => str_bytes("<None>"@),
        },
    ) + spec_field(str_bytes("resolution"@), spec_resolution_name_bytes(d.resolution))
        + spec_field(
        str_bytes("placeOrderSettings"@),
        match settings_id {
            Some(sid) => spec_u128_be(sid),
            None => str_bytes("<None>"@),
        },
    )
}

impl StrategyInstanceDefinition {
    /// The definition's identity: a pure function of its contents, so that
    /// storing the same definition twice yields the same durable key.
    pub fn id(&self) -> (r: u128)
        ensures
            exists|pid: u128|
                {
                    &&& #[trigger] spec_params_id_rel(self.params@, pid)
                    &&& r == uuid_v5_of(
                        uuid_v5_of(UUID_NAMESPACE_OID, str_bytes("strategyInstanceId"@)),
                        spec_strategy_instance_bytes(
                            *self,
                            pid,
                            match self.place_order_settings {
                                Some(pos) => Some(
                                    uuid_v5_of(
                                        uuid_v5_of(
                                            UUID_NAMESPACE_OID,
                                            str_bytes("placeOrderSettings"@),
                                        ),
                                        spec_place_order_bytes(pos),
                                    ),
                                ),
                                None => None,
                            },
                        ),
                    )
                },
    {
        let mut generator = IdGenerator::new();
        generator.add("strategyName", self.strategy_name.as_str().as_bytes());
        let pid = params_set_id(clone_params(&self.params));
        let pid_buf = u128_be_buf(pid);
        generator.add("params", pid_buf.as_slice());
        let tf_buf = i64_le_buf(self.time_from);
        generator.add("timeFrom", tf_buf.as_slice());
        match self.time_to {
            Some(t) => {
                let buf = i64_le_buf(t);
                generator.add_opt("timeTo", Some(buf.as_slice()));
            },
            None => {
                generator.add_opt("timeTo", None);
            },
        }
        let res_name = self.resolution.name();
        generator.add("resolution", res_name.as_str().as_bytes());
        match &self.place_order_settings {
            Some(pos) => {
                let sid = pos.id();
                let buf = u128_be_buf(sid);
                generator.add_opt("placeOrderSettings", Some(buf.as_slice()));
            },
            None => {
                generator.add_opt("placeOrderSettings", None);
            },
        }
        let ns = get_strategy_instance_ns();
        let r = generator.generate(ns);
        proof {
            assert(spec_params_id_rel(self.params@, pid));
        }
        r
    }
}

/// The canonical bytes of one parameter in a position-manager identity: the
/// name, a NUL, a type tag with the value, a NUL.
pub open spec fn spec_pm_param_entry_bytes(e: (String, ParamValue)) -> Seq<u8> {
    str_bytes(e.0@) + seq![0u8] + match e.1 {
        ParamValue::Instrument(f) => str_bytes("Figi:"@) + str_bytes(f.0@) + seq![0u8],
        ParamValue::Integer(v) => str_bytes("Integer:"@) + spec_i64_le(v) + seq![0u8],
        ParamValue::Float(v) => str_bytes("Float:"@) + spec_u64_le(v) + seq![0u8],
        ParamValue::Boolean(b) => str_bytes("Boolean:"@) + seq![
            if b {
                1u8
            } else {
                0u8
            },
            0u8,
        ],
    }
}

/// The canonical bytes of a sorted position-manager parameter list.
pub open spec fn spec_pm_params_bytes(s: Seq<(String, ParamValue)>) -> Seq<u8>
    decreases s.len(),
{
    if s.len() == 0 {
        Seq::empty()
    } else {
        spec_pm_params_bytes(s.drop_last()) + spec_pm_param_entry_bytes(s.last())
    }
}

/// The bytes of a sorted strategy id list: each id big-endian, NUL-separated.
pub open spec fn spec_ids_bytes(ids: Seq<u128>) -> Seq<u8>
    decreases ids.len(),
{
    if ids.len() == 0 {
        Seq::empty()
    } else {
        spec_ids_bytes(ids.drop_last()) + spec_u128_be(ids.last()) + seq![0u8]
    }
}

/// Ids in ascending order.
pub open spec fn sorted_ids(ids: Seq<u128>) -> bool {
    forall|i: int, j: int| 0 <= i < j < ids.len() ==> #[trigger] ids[i] <= #[trigger] ids[j]
}

/// Sort strategy ids ascending, keeping the multiset.
pub fn sort_strategy_ids(ids: &Vec<u128>) -> (out: Vec<u128>)
    ensures
        out@.to_multiset() == ids@.to_multiset(),
        sorted_ids(out@),
{
    broadcast use vstd::seq_lib::group_to_multiset_ensures;

    let mut out: Vec<u128> = Vec::new();
    let n = ids.len();
    let mut i: usize = 0;
    proof {
        assert(ids@.take(0) =~= Seq::<u128>::empty());
    }
    while i < n
        invariant
            i <= n,
            n == ids@.len(),
            out@.to_multiset() == ids@.take(i as int).to_multiset(),
            sorted_ids(out@),
        decreases n - i,
    {
        let x = ids[i];
        let mut p: usize = 0;
        while p < out.len() && out[p] <= x
            invariant
                p <= out.len(),
                forall|k: int| 0 <= k < p ==> #[trigger] out@[k] <= x,
            decreases out.len() - p,
        {
            p += 1;
        }
        proof {
            assert(ids@.take(i as int + 1) =~= ids@.take(i as int).push(x));
            vstd::seq_lib::to_multiset_build(ids@.take(i as int), x);
            vstd::seq_lib::to_multiset_insert(out@, p as int, x);
        }
        let ghost pre = out@;
        out.insert(p, x);
        proof {
            assert forall|a: int, b: int| 0 <= a < b < out@.len() implies #[trigger] out@[a]
                <= #[trigger] out@[b] by {
                if b < p {
                    assert(out@[a] == pre[a] && out@[b] == pre[b]);
                } else if a > p {
                    assert(out@[a] == pre[a - 1] && out@[b] == pre[b - 1]);
                } else if a < p && b == p {
                    assert(out@[a] == pre[a]);
                } else if a == p && b > p {
                    assert(out@[b] == pre[b - 1]);
                    assert(!(pre[p as int] <= x));
                    if b - 1 > p {
                        assert(pre[p as int] <= pre[b - 1]);
                    }
                } else {
                    assert(out@[a] == pre[a] && out@[b] == pre[b - 1]);
                    if a < b - 1 {
                        assert(pre[a] <= pre[b - 1]);
                    }
                }
            }
        }
        i += 1;
    }
    proof {
        assert(ids@.take(n as int) =~= ids@);
    }
    out
}

/// How a position-manager instance's identity relates to its definition:
/// the hash of its name, its parameters sorted by name, and its strategy
/// ids sorted ascending.
pub open spec fn spec_pm_id_rel(d: PositionManagerInstanceDefinition, r: u128) -> bool {
    exists|sorted_params: Seq<(String, ParamValue)>, ids: Seq<u128>|
        {
            &&& sorted_params.to_multiset() == d.params@.to_multiset()
            &&& sorted_by_name_bytes(sorted_params)
            &&& ids.to_multiset() == d.strategies@.to_multiset()
            &&& sorted_ids(ids)
            &&& r == uuid_v5_of(
                uuid_v5_of(UUID_NAMESPACE_OID, str_bytes("Position Manager Instance Id"@)),
                str_bytes(d.position_manager_name@) + seq![0u8] + #[trigger] spec_pm_params_bytes(
                    sorted_params,
                ) + str_bytes("Strategies:"@) + #[trigger] spec_ids_bytes(ids) + seq![0u8],
            )
        }
}

impl PositionManagerInstanceDefinition {
    /// The definition's identity: a pure function of its contents, with
    /// parameters and strategy ids in canonical order.
    pub fn id(&self) -> (r: u128)
        ensures
            spec_pm_id_rel(*self, r),
    {
        let mut bytes: Vec<u8> = Vec::new();
        push_bytes(&mut bytes, self.position_manager_name.as_str().as_bytes());
        bytes.push(0);
        let sorted = sort_params(clone_params(&self.params));
        let ghost sorted_seq = sorted@;
        let ghost base = bytes@;
        let n = sorted.len();
        let mut i: usize = 0;
        proof {
            assert(spec_pm_params_bytes(sorted_seq.take(0)) =~= Seq::<u8>::empty());
            assert(bytes@ =~= base + spec_pm_params_bytes(sorted_seq.take(0)));
        }
        while i < n
            invariant
                i <= n,
                n == sorted@.len(),
                sorted@ == sorted_seq,
                bytes@ == base + spec_pm_params_bytes(sorted_seq.take(i as int)),
            decreases n - i,
        {
            proof {
                assert(sorted_seq.take(i as int + 1).drop_last() =~= sorted_seq.take(i as int));
                assert(sorted_seq.take(i as int + 1).last() == sorted_seq[i as int]);
            }
            push_bytes(&mut bytes, sorted[i].0.as_str().as_bytes());
            bytes.push(0);
            match &sorted[i].1 {
                ParamValue::Instrument(f) => {
                    push_bytes(&mut bytes, "Figi:".as_bytes());
                    push_bytes(&mut bytes, f.0.as_str().as_bytes());
                    bytes.push(0);
                },
                ParamValue::Integer(v) => {
                    push_bytes(&mut bytes, "Integer:".as_bytes());
                    push_i64_le(&mut bytes, *v);
                    bytes.push(0);
                },
                ParamValue::Float(v) => {
                    push_bytes(&mut bytes, "Float:".as_bytes());
                    push_u64_le(&mut bytes, *v);
                    bytes.push(0);
                },
                ParamValue::Boolean(b) => {
                    push_bytes(&mut bytes, "Boolean:".as_bytes());
                    bytes.push(if *b { 1 } else { 0 });
                    bytes.push(0);
                },
            }
            proof {
                assert(bytes@ =~= base + spec_pm_params_bytes(sorted_seq.take(i as int + 1)));
            }
            i += 1;
        }
        proof {
            assert(sorted_seq.take(n as int) =~= sorted_seq);
        }
        push_bytes(&mut bytes, "Strategies:".as_bytes());
        let sorted_strategies = sort_strategy_ids(&self.strategies);
        let ghost ids_seq = sorted_strategies@;
        let ghost base2 = bytes@;
        let m = sorted_strategies.len();
        let mut k: usize = 0;
        proof {
            assert(spec_ids_bytes(ids_seq.take(0)) =~= Seq::<u8>::empty());
            assert(bytes@ =~= base2 + spec_ids_bytes(ids_seq.take(0)));
        }
        while k < m
            invariant
                k <= m,
                m == sorted_strategies@.len(),
                sorted_strategies@ == ids_seq,
                bytes@ == base2 + spec_ids_bytes(ids_seq.take(k as int)),
            decreases m - k,
        {
            proof {
                assert(ids_seq.take(k as int + 1).drop_last() =~= ids_seq.take(k as int));
                assert(ids_seq.take(k as int + 1).last() == ids_seq[k as int]);
            }
            push_u128_be(&mut bytes, sorted_strategies[k]);
            bytes.push(0);
            proof {
                assert(bytes@ =~= base2 + spec_ids_bytes(ids_seq.take(k as int + 1)));
            }
            k += 1;
        }
        proof {
            assert(ids_seq.take(m as int) =~= ids_seq);
        }
        bytes.push(0);
        let ns = get_position_manager_instance_ns();
        let r = uuid_v5(ns, bytes.as_slice());
        proof {
            assert(bytes@ =~= str_bytes(self.position_manager_name@) + seq![0u8]
                + spec_pm_params_bytes(sorted_seq) + str_bytes("Strategies:"@) + spec_ids_bytes(
                ids_seq,
            ) + seq![0u8]);
        }
        r
    }
}

} // verus!
