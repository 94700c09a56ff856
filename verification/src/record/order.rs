//! Equality and order of records: satellites by catalog id, orbits by
//! their key in the vault.
use std::cmp::Ordering;

use vstd::prelude::*;
use vstd::std_specs::cmp::PartialEqSpecImpl;
use vstd::std_specs::cmp::PartialOrdSpecImpl;
use vstd::utf8::{decode_utf8, encode_utf8, encode_utf8_decode_utf8};

use super::{OrbitRecord, SatelliteIdRecord};

verus! {

/// The lexicographic order of two byte sequences, in which a proper prefix
/// comes first; `str` and `String` are ordered so, by their UTF-8 bytes.
pub open spec fn lex_order(a: Seq<u8>, b: Seq<u8>) -> Ordering
    decreases a.len(),
{
    if a.len() == 0 {
        if b.len() == 0 {
            Ordering::Equal
        } else {
            Ordering::Less
        }
    } else if b.len() == 0 {
        Ordering::Greater
    } else if a[0] < b[0] {
        Ordering::Less
    } else if a[0] > b[0] {
        Ordering::Greater
    } else {
        lex_order(a.drop_first(), b.drop_first())
    }
}

/// The order of two unsigned integers.
pub open spec fn number_order(a: usize, b: usize) -> Ordering {
    if a < b {
        Ordering::Less
    } else if a == b {
        Ordering::Equal
    } else {
        Ordering::Greater
    }
}

/// The opposite of an order.
pub open spec fn reversed(o: Ordering) -> Ordering {
    match o {
        Ordering::Less => Ordering::Greater,
        Ordering::Equal => Ordering::Equal,
        Ordering::Greater => Ordering::Less,
    }
}

/// Whether two satellite records stand for the same satellite: whether their
/// catalog ids are equal.
pub open spec fn same_satellite(a: SatelliteIdRecord, b: SatelliteIdRecord) -> bool {
    a.catalog_id@ == b.catalog_id@
}

/// The order of two satellite records: that of their catalog ids.
pub open spec fn satellite_order(a: SatelliteIdRecord, b: SatelliteIdRecord) -> Ordering {
    lex_order(encode_utf8(a.catalog_id@), encode_utf8(b.catalog_id@))
}

/// The order of two orbit records: that of their keys in the vault.
pub open spec fn orbit_order(a: OrbitRecord, b: OrbitRecord) -> Ordering {
    number_order(a.db_id, b.db_id)
}

proof fn lemma_lex_order_equal(a: Seq<u8>, b: Seq<u8>)
    ensures
        (lex_order(a, b) == Ordering::Equal) <==> a == b,
    decreases a.len(),
{
    if a.len() == 0 {
        if b.len() == 0 {
            assert(a =~= b);
        }
    } else if b.len() == 0 {
    } else if a[0] != b[0] {
    } else {
        lemma_lex_order_equal(a.drop_first(), b.drop_first());
        if a.drop_first() == b.drop_first() {
            assert(a =~= b) by {
                assert forall|i: int| 0 <= i < a.len() implies a[i] == b[i] by {
                    if i > 0 {
                        assert(a[i] == a.drop_first()[i - 1]);
                        assert(b[i] == b.drop_first()[i - 1]);
                    }
                }
            }
        }
    }
}

proof fn lemma_lex_order_reverse(a: Seq<u8>, b: Seq<u8>)
    ensures
        lex_order(b, a) == reversed(lex_order(a, b)),
    decreases a.len(),
{
    if a.len() > 0 && b.len() > 0 && a[0] == b[0] {
        lemma_lex_order_reverse(a.drop_first(), b.drop_first());
    }
}

proof fn lemma_lex_order_transitive(a: Seq<u8>, b: Seq<u8>, c: Seq<u8>)
    requires
        lex_order(a, b) == Ordering::Less,
        lex_order(b, c) == Ordering::Less,
    ensures
        lex_order(a, c) == Ordering::Less,
    decreases a.len(),
{
    if a.len() > 0 && c.len() > 0 && a[0] == c[0] {
        assert(b.len() > 0);
        assert(a[0] == b[0]);
        lemma_lex_order_transitive(a.drop_first(), b.drop_first(), c.drop_first());
    }
}

/// Where two byte sequences first differ, the one with the smaller byte
/// there comes first.
pub proof fn lemma_lex_order_first_difference(a: Seq<u8>, b: Seq<u8>, k: int)
    requires
        0 <= k < a.len(),
        k < b.len(),
        a.take(k) == b.take(k),
        a[k] < b[k],
    ensures
        lex_order(a, b) == Ordering::Less,
    decreases k,
{
    if k > 0 {
        assert(a[0] == a.take(k)[0]);
        assert(b[0] == b.take(k)[0]);
        assert(a.drop_first().take(k - 1) =~= a.take(k).drop_first());
        assert(b.drop_first().take(k - 1) =~= b.take(k).drop_first());
        lemma_lex_order_first_difference(a.drop_first(), b.drop_first(), k - 1);
    }
}

/// A proper prefix comes before the sequence it begins.
pub proof fn lemma_lex_order_proper_prefix(a: Seq<u8>, b: Seq<u8>, k: int)
    requires
        k == a.len(),
        k < b.len(),
        a == b.take(k),
    ensures
        lex_order(a, b) == Ordering::Less,
    decreases k,
{
    if k > 0 {
        assert(a[0] == b[0]);
        assert(a.drop_first() =~= b.drop_first().take(k - 1));
        lemma_lex_order_proper_prefix(a.drop_first(), b.drop_first(), k - 1);
    }
}

/// Satellite records are ordered as their catalog ids are, byte by byte
/// like `String`: where the UTF-8 bytes of the two ids first differ, the id
/// with the smaller byte there comes first.
pub proof fn lemma_satellite_order_first_difference(
    a: SatelliteIdRecord,
    b: SatelliteIdRecord,
    k: int,
)
    requires
        0 <= k < encode_utf8(a.catalog_id@).len(),
        k < encode_utf8(b.catalog_id@).len(),
        encode_utf8(a.catalog_id@).take(k) == encode_utf8(b.catalog_id@).take(k),
        encode_utf8(a.catalog_id@)[k] < encode_utf8(b.catalog_id@)[k],
    ensures
        satellite_order(a, b) == Ordering::Less,
        satellite_order(b, a) == Ordering::Greater,
{
    let x = encode_utf8(a.catalog_id@);
    let y = encode_utf8(b.catalog_id@);
    lemma_lex_order_first_difference(x, y, k);
    lemma_lex_order_reverse(x, y);
}

/// A satellite record whose catalog id is a proper prefix of another's
/// comes before it.
pub proof fn lemma_satellite_order_prefix(a: SatelliteIdRecord, b: SatelliteIdRecord, k: int)
    requires
        k == encode_utf8(a.catalog_id@).len(),
        k < encode_utf8(b.catalog_id@).len(),
        encode_utf8(a.catalog_id@) == encode_utf8(b.catalog_id@).take(k),
    ensures
        satellite_order(a, b) == Ordering::Less,
        satellite_order(b, a) == Ordering::Greater,
{
    let x = encode_utf8(a.catalog_id@);
    let y = encode_utf8(b.catalog_id@);
    lemma_lex_order_proper_prefix(x, y, k);
    lemma_lex_order_reverse(x, y);
}

/// Two satellite records are equal exactly where they compare as equal:
/// `==` and the order agree.
pub proof fn lemma_satellite_equal_iff_order_equal(a: SatelliteIdRecord, b: SatelliteIdRecord)
    ensures
        same_satellite(a, b) <==> satellite_order(a, b) == Ordering::Equal,
{
    let x = encode_utf8(a.catalog_id@);
    let y = encode_utf8(b.catalog_id@);
    lemma_lex_order_equal(x, y);
    if x == y {
        encode_utf8_decode_utf8(a.catalog_id@);
        encode_utf8_decode_utf8(b.catalog_id@);
        assert(decode_utf8(x) == decode_utf8(y));
    }
}

/// Equality and order of satellite records depend on their catalog ids
/// alone: a record with the same catalog id and any name stands in the same
/// relation to every other record.
pub proof fn lemma_satellite_relations_ignore_name(
    a: SatelliteIdRecord,
    a2: SatelliteIdRecord,
    b: SatelliteIdRecord,
)
    requires
        a.catalog_id@ == a2.catalog_id@,
    ensures
        same_satellite(a, b) == same_satellite(a2, b),
        satellite_order(a, b) == satellite_order(a2, b),
        same_satellite(a, a2),
{
}

/// Comparing two satellite records the other way round gives the opposite order.
pub proof fn lemma_satellite_order_antisymmetric(a: SatelliteIdRecord, b: SatelliteIdRecord)
    ensures
        satellite_order(b, a) == reversed(satellite_order(a, b)),
{
    lemma_lex_order_reverse(encode_utf8(a.catalog_id@), encode_utf8(b.catalog_id@));
}

/// The order of satellite records is transitive.
pub proof fn lemma_satellite_order_transitive(
    a: SatelliteIdRecord,
    b: SatelliteIdRecord,
    c: SatelliteIdRecord,
)
    requires
        satellite_order(a, b) == Ordering::Less,
        satellite_order(b, c) == Ordering::Less,
    ensures
        satellite_order(a, c) == Ordering::Less,
{
    lemma_lex_order_transitive(
        encode_utf8(a.catalog_id@),
        encode_utf8(b.catalog_id@),
        encode_utf8(c.catalog_id@),
    );
}

/// Orbit records are ordered by their keys alone: two records compare as
/// equal exactly where their keys are equal, whatever else they hold, and
/// comparing the other way round gives the opposite order.
pub proof fn lemma_orbit_order_by_key(a: OrbitRecord, b: OrbitRecord)
    ensures
        (orbit_order(a, b) == Ordering::Equal) <==> a.db_id == b.db_id,
        orbit_order(b, a) == reversed(orbit_order(a, b)),
{
}

/// The bytes of `s` from position `i` on.
pub open spec fn tail_from(s: Seq<u8>, i: usize) -> Seq<u8> {
    s.skip(i as int)
}

/// Compares two byte sequences lexicographically.
fn compare_bytes(a: &[u8], b: &[u8]) -> (r: Ordering)
    ensures
        r == lex_order(a@, b@),
{
    let mut i: usize = 0;
    assert(tail_from(a@, 0) =~= a@);
    assert(tail_from(b@, 0) =~= b@);
    while i < a.len() && i < b.len()
        invariant
            i <= a@.len(),
            i <= b@.len(),
            lex_order(a@, b@) == lex_order(tail_from(a@, i), tail_from(b@, i)),
        decreases a@.len() - i,
    {
        let x = a[i];
        let y = b[i];
        assert(tail_from(a@, i)[0] == x);
        assert(tail_from(b@, i)[0] == y);
        if x < y {
            return Ordering::Less;
        }
        if x > y {
            return Ordering::Greater;
        }
        let next = i + 1;
        assert(tail_from(a@, i).drop_first() =~= tail_from(a@, next));
        assert(tail_from(b@, i).drop_first() =~= tail_from(b@, next));
        i = next;
    }
    if i < a.len() {
        Ordering::Greater
    } else if i < b.len() {
        Ordering::Less
    } else {
        Ordering::Equal
    }
}

/// Compares two strings by their UTF-8 bytes, as `String`'s own order does.
fn compare_strings(a: &String, b: &String) -> (r: Ordering)
    ensures
        r == lex_order(encode_utf8(a@), encode_utf8(b@)),
{
    compare_bytes(a.as_str().as_bytes(), b.as_str().as_bytes())
}

impl PartialEq for SatelliteIdRecord {
    fn eq(&self, other: &Self) -> (r: bool) {
        self.catalog_id == other.catalog_id
    }
}

impl PartialEqSpecImpl for SatelliteIdRecord {
    open spec fn obeys_eq_spec() -> bool {
        true
    }

    open spec fn eq_spec(&self, other: &Self) -> bool {
        same_satellite(*self, *other)
    }
}

impl Eq for SatelliteIdRecord {

}

impl PartialOrd for SatelliteIdRecord {
    fn partial_cmp(&self, other: &Self) -> (r: Option<Ordering>) {
        Some(compare_strings(&self.catalog_id, &other.catalog_id))
    }
}

impl PartialOrdSpecImpl for SatelliteIdRecord {
    open spec fn obeys_partial_cmp_spec() -> bool {
        true
    }

    open spec fn partial_cmp_spec(&self, other: &Self) -> Option<Ordering> {
        Some(satellite_order(*self, *other))
    }
}

impl SatelliteIdRecord {
    /// The total order of satellite records: that of their catalog ids.
    pub fn cmp(&self, other: &Self) -> (r: Ordering)
        ensures
            r == satellite_order(*self, *other),
    {
        compare_strings(&self.catalog_id, &other.catalog_id)
    }
}

impl PartialOrd for OrbitRecord {
    fn partial_cmp(&self, other: &Self) -> (r: Option<Ordering>) {
        Some(self.cmp(other))
    }
}

impl PartialOrdSpecImpl for OrbitRecord {
    open spec fn obeys_partial_cmp_spec() -> bool {
        true
    }

    open spec fn partial_cmp_spec(&self, other: &Self) -> Option<Ordering> {
        Some(orbit_order(*self, *other))
    }
}

impl OrbitRecord {
    /// The total order of orbit records: that of their keys in the vault.
    pub fn cmp(&self, other: &Self) -> (r: Ordering)
        ensures
            r == orbit_order(*self, *other),
    {
        if self.db_id < other.db_id {
            Ordering::Less
        } else if self.db_id == other.db_id {
            Ordering::Equal
        } else {
            Ordering::Greater
        }
    }
}

} // verus!
