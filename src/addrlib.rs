use vstd::prelude::*;
use crate::common::{Id, IdRangeError, Offset, Version};
use crate::graph::Graph;
use crate::offsets::{OffsetList, OffsetLists};

verus! {

/// Byte `j` of `x`, least significant first.
pub open spec fn byte_of(x: u64, j: int) -> u8 {
    ((x >> ((8 * j) as u64)) & 0xff) as u8
}

/// The little-endian 64-bit integer at position `at` of `b`.
pub open spec fn le_u64_at(b: Seq<u8>, at: int) -> u64 {
    (b[at] as u64) | ((b[at + 1] as u64) << 8u64) | ((b[at + 2] as u64) << 16u64) | ((b[at + 3] as u64)
        << 24u64) | ((b[at + 4] as u64) << 32u64) | ((b[at + 5] as u64) << 40u64) | ((b[at + 6] as u64)
        << 48u64) | ((b[at + 7] as u64) << 56u64)
}

/// Byte `p` of the bin file that holds `m`: the record count, then each
/// (identifier, offset) record, every field a little-endian 64-bit integer.
pub open spec fn encoded_byte(m: Seq<(u64, u64)>, p: int) -> u8 {
    if p < 8 {
        byte_of(m.len() as u64, p)
    } else {
        let r = (p - 8) / 16;
        let o = (p - 8) % 16;
        if o < 8 {
            byte_of(m[r].0, o)
        } else {
            byte_of(m[r].1, o - 8)
        }
    }
}

/// The bin file that holds `m`.
pub open spec fn encoded(m: Seq<(u64, u64)>) -> Seq<u8> {
    Seq::new((8 + 16 * m.len()) as nat, |p: int| encoded_byte(m, p))
}

/// The record count stated at the start of `b`.
pub open spec fn bin_count(b: Seq<u8>) -> u64 {
    le_u64_at(b, 0)
}

/// Record `i` of `b`: (identifier, offset).
pub open spec fn bin_record(b: Seq<u8>, i: int) -> (u64, u64) {
    (le_u64_at(b, 8 + 16 * i), le_u64_at(b, 16 + 16 * i))
}

/// `b` holds as many records as it states.
pub open spec fn bin_complete(b: Seq<u8>) -> bool {
    b.len() >= 8 && b.len() - 8 >= 16 * bin_count(b)
}

/// `b` is a complete bin whose identifiers are valid and whose offsets fit 32 bits.
pub open spec fn bin_valid(b: Seq<u8>) -> bool {
    &&& bin_complete(b)
    &&& forall|i: int| 0 <= i < bin_count(b) ==> (#[trigger] bin_record(b, i)).0 != u64::MAX
    &&& forall|i: int| 0 <= i < bin_count(b) ==> (#[trigger] bin_record(b, i)).1 <= u32::MAX
}

/// Why bytes are no address bin.
#[derive(Clone, Copy, Debug, PartialEq, Eq, Structural)]
pub enum BinError {
    /// Fewer bytes than the stated record count needs.
    Truncated,
    /// Record `i` holds the reserved identifier value.
    InvalidId(u64),
    /// Record `i` holds an offset that does not fit 32 bits.
    OffsetTooLarge(u64),
}

proof fn lemma_le_bytes(x: u64)
    ensures
        ((((x >> 0u64) & 0xff) as u8) as u64) | ((((x >> 8u64) & 0xff) as u8 as u64) << 8u64) | ((((x >> 16u64) & 0xff) as u8
            as u64) << 16u64) | ((((x >> 24u64) & 0xff) as u8 as u64) << 24u64) | ((((x >> 32u64) & 0xff) as u8
            as u64) << 32u64) | ((((x >> 40u64) & 0xff) as u8 as u64) << 40u64) | ((((x >> 48u64) & 0xff) as u8
            as u64) << 48u64) | ((((x >> 56u64) & 0xff) as u8 as u64) << 56u64) == x,
{
    assert(((((x >> 0u64) & 0xff) as u8) as u64) | ((((x >> 8u64) & 0xff) as u8 as u64) << 8u64) | ((((x >> 16u64) & 0xff) as u8
            as u64) << 16u64) | ((((x >> 24u64) & 0xff) as u8 as u64) << 24u64) | ((((x >> 32u64) & 0xff) as u8
            as u64) << 32u64) | ((((x >> 40u64) & 0xff) as u8 as u64) << 40u64) | ((((x >> 48u64) & 0xff) as u8
            as u64) << 48u64) | ((((x >> 56u64) & 0xff) as u8 as u64) << 56u64) == x) by (bit_vector);
}

proof fn lemma_le_of_bytes(b: Seq<u8>, at: int, x: u64)
    requires
        0 <= at,
        at + 8 <= b.len(),
        forall|j: int| 0 <= j < 8 ==> b[at + j] == #[trigger] byte_of(x, j),
    ensures
        le_u64_at(b, at) == x,
{
    assert(b[at] == byte_of(x, 0));
    assert(b[at + 1] == byte_of(x, 1));
    assert(b[at + 2] == byte_of(x, 2));
    assert(b[at + 3] == byte_of(x, 3));
    assert(b[at + 4] == byte_of(x, 4));
    assert(b[at + 5] == byte_of(x, 5));
    assert(b[at + 6] == byte_of(x, 6));
    assert(b[at + 7] == byte_of(x, 7));
    assert(byte_of(x, 0) == ((x >> 0u64) & 0xff) as u8);
    assert(byte_of(x, 1) == ((x >> 8u64) & 0xff) as u8);
    assert(byte_of(x, 2) == ((x >> 16u64) & 0xff) as u8);
    assert(byte_of(x, 3) == ((x >> 24u64) & 0xff) as u8);
    assert(byte_of(x, 4) == ((x >> 32u64) & 0xff) as u8);
    assert(byte_of(x, 5) == ((x >> 40u64) & 0xff) as u8);
    assert(byte_of(x, 6) == ((x >> 48u64) & 0xff) as u8);
    assert(byte_of(x, 7) == ((x >> 56u64) & 0xff) as u8);
    lemma_le_bytes(x);
}

proof fn lemma_record_position(i: int, o: int)
    requires
        0 <= i,
        0 <= o < 16,
    ensures
        (16 * i + o) / 16 == i,
        (16 * i + o) % 16 == o,
        16 * i + o + 8 - 8 == 16 * i + o,
{
    assert((16 * i + o) / 16 == i && (16 * i + o) % 16 == o) by (nonlinear_arith)
        requires
            0 <= i,
            0 <= o < 16,
    ;
}

/// The bin file that holds `m` states `m`'s length and holds `m`'s records in order.
proof fn lemma_encoded_fields(m: Seq<(u64, u64)>)
    requires
        m.len() < u64::MAX,
    ensures
        bin_count(encoded(m)) == m.len(),
        forall|i: int| 0 <= i < m.len() ==> #[trigger] bin_record(encoded(m), i) == m[i],
{
    let b = encoded(m);
    assert forall|j: int| 0 <= j < 8 implies b[0 + j] == #[trigger] byte_of(m.len() as u64, j) by {
    }
    lemma_le_of_bytes(b, 0, m.len() as u64);
    assert forall|i: int| 0 <= i < m.len() implies #[trigger] bin_record(b, i) == m[i] by {
        assert(16 * i + 16 <= 16 * m.len()) by (nonlinear_arith)
            requires
                0 <= i < m.len(),
        ;
        assert forall|j: int| 0 <= j < 8 implies b[8 + 16 * i + j] == #[trigger] byte_of(m[i].0, j) by {
            lemma_record_position(i, j);
        }
        assert forall|j: int| 0 <= j < 8 implies b[16 + 16 * i + j] == #[trigger] byte_of(m[i].1, j) by {
            lemma_record_position(i, j + 8);
        }
        lemma_le_of_bytes(b, 8 + 16 * i, m[i].0);
        lemma_le_of_bytes(b, 16 + 16 * i, m[i].1);
    }
}

/// Writing records with valid identifiers and 32-bit offsets to a bin file
/// and reading it back gives the same records, in the same order.
pub proof fn lemma_bin_round_trip(m: Seq<(u64, u64)>)
    requires
        m.len() < u64::MAX,
        forall|i: int| 0 <= i < m.len() ==> (#[trigger] m[i]).0 != u64::MAX && m[i].1 <= u32::MAX,
    ensures
        bin_valid(encoded(m)),
        bin_count(encoded(m)) == m.len(),
        forall|i: int| 0 <= i < m.len() ==> #[trigger] bin_record(encoded(m), i) == m[i],
{
    lemma_encoded_fields(m);
}

fn read_u64(b: &[u8], at: usize) -> (r: u64)
    requires
        at + 8 <= b@.len(),
    ensures
        r == le_u64_at(b@, at as int),
{
    (b[at] as u64) | ((b[at + 1] as u64) << 8u64) | ((b[at + 2] as u64) << 16u64) | ((b[at + 3] as u64)
        << 24u64) | ((b[at + 4] as u64) << 32u64) | ((b[at + 5] as u64) << 40u64) | ((b[at + 6] as u64)
        << 48u64) | ((b[at + 7] as u64) << 56u64)
}

fn push_u64(v: &mut Vec<u8>, x: u64)
    ensures
        final(v)@ == old(v)@ + Seq::new(8, |j: int| byte_of(x, j)),
{
    v.push(((x >> 0u64) & 0xff) as u8);
    v.push(((x >> 8u64) & 0xff) as u8);
    v.push(((x >> 16u64) & 0xff) as u8);
    v.push(((x >> 24u64) & 0xff) as u8);
    v.push(((x >> 32u64) & 0xff) as u8);
    v.push(((x >> 40u64) & 0xff) as u8);
    v.push(((x >> 48u64) & 0xff) as u8);
    v.push(((x >> 56u64) & 0xff) as u8);
    assert(v@ =~= old(v)@ + Seq::new(8, |j: int| byte_of(x, j)));
}

/// The bin file that holds the (identifier, offset) records `m`.
pub fn encode(m: &[(u64, u64)]) -> (r: Vec<u8>)
    requires
        8 + 16 * m@.len() <= usize::MAX,
    ensures
        r@ == encoded(m@),
{
    let mut v: Vec<u8> = Vec::new();
    push_u64(&mut v, m.len() as u64);
    assert(v@ =~= Seq::new(8, |p: int| encoded_byte(m@, p)));
    let mut i: usize = 0;
    while i < m.len()
        invariant
            8 + 16 * m@.len() <= usize::MAX,
            i <= m@.len(),
            v@ == Seq::new((8 + 16 * i) as nat, |p: int| encoded_byte(m@, p)),
        decreases m.len() - i,
    {
        let (id, offset) = m[i];
        let ghost v0 = v@;
        push_u64(&mut v, id);
        push_u64(&mut v, offset);
        assert(16 * i + 16 <= 16 * m@.len()) by (nonlinear_arith)
            requires
                i < m@.len(),
        ;
        assert forall|p: int| 0 <= p < 8 + 16 * (i + 1) implies #[trigger] v@[p] == encoded_byte(m@, p) by {
            if p >= 8 + 16 * i {
                let o = p - 8 - 16 * i;
                lemma_record_position(i as int, o);
            }
        }
        assert(v@ =~= Seq::new((8 + 16 * (i + 1)) as nat, |p: int| encoded_byte(m@, p)));
        i = i + 1;
    }
    v
}

/// The (identifier, offset) pairs published for one version.
pub struct AddressBin {
    mappings: Vec<(Id, Offset)>,
}

impl AddressBin {
    pub closed spec fn mappings(&self) -> Seq<(Id, Offset)> {
        self.mappings@
    }

    pub fn new(mappings: Vec<(Id, Offset)>) -> (r: AddressBin)
        ensures
            r.mappings() == mappings@,
    {
        AddressBin { mappings }
    }

    /// Reads a bin file: the record count, then that many (identifier,
    /// offset) records; bytes after the last record are not read.
    pub fn parse(bytes: &[u8]) -> (r: Result<AddressBin, BinError>)
        ensures
            r is Ok <==> bin_valid(bytes@),
            r == Err::<AddressBin, BinError>(BinError::Truncated) <==> !bin_complete(bytes@),
            r is Ok ==> r->Ok_0.mappings().len() == bin_count(bytes@),
            r is Ok ==> forall|i: int|
                0 <= i < bin_count(bytes@) ==> (#[trigger] r->Ok_0.mappings()[i]).0@ == bin_record(bytes@, i).0
                    && r->Ok_0.mappings()[i].1.0 == bin_record(bytes@, i).1,
            r is Err && r->Err_0 is InvalidId ==> r->Err_0->InvalidId_0 < bin_count(bytes@)
                && bin_record(bytes@, r->Err_0->InvalidId_0 as int).0 == u64::MAX,
            r is Err && r->Err_0 is OffsetTooLarge ==> r->Err_0->OffsetTooLarge_0 < bin_count(bytes@)
                && bin_record(bytes@, r->Err_0->OffsetTooLarge_0 as int).1 > u32::MAX,
    {
        if bytes.len() < 8 {
            return Err(BinError::Truncated);
        }
        let count = read_u64(bytes, 0);
        let room = (bytes.len() - 8) / 16;
        assert(bin_complete(bytes@) <==> room as int >= count) by (nonlinear_arith)
            requires
                room == (bytes@.len() - 8) / 16,
                bytes@.len() >= 8,
                bin_complete(bytes@) <==> bytes@.len() - 8 >= 16 * count,
        ;
        if (room as u64) < count {
            return Err(BinError::Truncated);
        }
        let mut mappings: Vec<(Id, Offset)> = Vec::new();
        let mut i: usize = 0;
        while (i as u64) < count
            invariant
                bytes@.len() == bytes.len(),
                count == bin_count(bytes@),
                bin_complete(bytes@),
                room == (bytes@.len() - 8) / 16,
                count <= room,
                i <= count,
                mappings@.len() == i,
                forall|j: int| 0 <= j < i ==> (#[trigger] bin_record(bytes@, j)).0 != u64::MAX
                    && bin_record(bytes@, j).1 <= u32::MAX,
                forall|j: int|
                    0 <= j < i ==> (#[trigger] mappings@[j]).0@ == bin_record(bytes@, j).0
                        && mappings@[j].1.0 == bin_record(bytes@, j).1,
            decreases count - i,
        {
            assert(16 * i + 24 <= bytes@.len()) by (nonlinear_arith)
                requires
                    i < room,
                    room == (bytes@.len() - 8) / 16,
                    bytes@.len() >= 8,
            ;
            let at = 8 + 16 * i;
            let id = read_u64(bytes, at);
            let offset = read_u64(bytes, at + 8);
            assert(bin_record(bytes@, i as int) == (id, offset));
            let id = match Id::try_from(id) {
                Ok(id) => id,
                Err(_) => {
                    return Err(BinError::InvalidId(i as u64));
                },
            };
            if offset > 0xffff_ffff {
                return Err(BinError::OffsetTooLarge(i as u64));
            }
            mappings.push((id, Offset(offset as u32)));
            i = i + 1;
        }
        Ok(AddressBin { mappings })
    }

    pub fn iter(&self) -> (r: &[(Id, Offset)])
        ensures
            r@ == self.mappings(),
    {
        self.mappings.as_slice()
    }
}

/// The published bins, at most one per version.
pub struct AddressBins {
    bins: Vec<(Version, AddressBin)>,
}

impl AddressBins {
    pub closed spec fn entries(&self) -> Seq<(Version, AddressBin)> {
        self.bins@
    }

    /// Versions are unique and ascending.
    pub open spec fn wf(&self) -> bool {
        &&& forall|i: int, j: int|
            0 <= i < j < self.entries().len() ==> (#[trigger] self.entries()[i]).0.spec_lt(
                (#[trigger] self.entries()[j]).0,
            )
        &&& forall|i: int, j: int|
            0 <= i < self.entries().len() && 0 <= j < self.entries().len() && i != j
                ==> (#[trigger] self.entries()[i]).0 != (#[trigger] self.entries()[j]).0
    }

    /// Version `v` has a bin.
    pub open spec fn has(&self, v: Version) -> bool {
        exists|i: int| 0 <= i < self.entries().len() && (#[trigger] self.entries()[i]).0 == v
    }

    /// Identifier `x` is recorded in some bin.
    pub open spec fn records(&self, x: u64) -> bool {
        exists|b: int, k: int|
            0 <= b < self.entries().len() && 0 <= k < self.entries()[b].1.mappings().len()
                && (#[trigger] self.entries()[b].1.mappings()[k]).0@ == x
    }

    /// Every identifier recorded in the bins is below `x`.
    pub open spec fn all_below(&self, x: u64) -> bool {
        forall|b: int, k: int|
            0 <= b < self.entries().len() && 0 <= k < self.entries()[b].1.mappings().len()
                ==> (#[trigger] self.entries()[b].1.mappings()[k]).0@ < x
    }

    pub fn new() -> (r: AddressBins)
        ensures
            r.wf(),
            r.entries().len() == 0,
    {
        AddressBins { bins: Vec::new() }
    }

    /// Version `key` has a bin.
    pub fn contains_key(&self, key: Version) -> (r: bool)
        ensures
            r == self.has(key),
    {
        let mut i: usize = 0;
        while i < self.bins.len()
            invariant
                i <= self.bins.len(),
                forall|j: int| 0 <= j < i ==> (#[trigger] self.bins@[j]).0 != key,
            decreases self.bins.len() - i,
        {
            if self.bins[i].0 == key {
                assert(self.entries()[i as int].0 == key);
                return true;
            }
            i = i + 1;
        }
        false
    }

    /// Records the bin of a version that has none yet, in version order; a
    /// version that has one leaves the collection as it is and the bin is
    /// handed back.
    pub fn insert(&mut self, key: Version, bin: AddressBin) -> (r: Result<(), AddressBin>)
        requires
            old(self).wf(),
        ensures
            final(self).wf(),
            old(self).has(key) ==> r is Err && final(self).entries() == old(self).entries(),
            !old(self).has(key) ==> r is Ok && exists|p: int|
                0 <= p <= old(self).entries().len() && final(self).entries() == old(self).entries().insert(
                    p,
                    (key, bin),
                ),
    {
        let mut i: usize = 0;
        while i < self.bins.len() && self.bins[i].0.lt(&key)
            invariant
                self.wf(),
                self.bins@ == old(self).bins@,
                i <= self.bins.len(),
                forall|j: int| 0 <= j < i ==> (#[trigger] self.bins@[j]).0.spec_lt(key),
            decreases self.bins.len() - i,
        {
            i = i + 1;
        }
        if i < self.bins.len() && self.bins[i].0 == key {
            assert(self.entries()[i as int].0 == key);
            return Err(bin);
        }
        let ghost e0 = old(self).entries();
        proof {
            assert forall|j: int| i <= j < e0.len() implies key.spec_lt((#[trigger] e0[j]).0) by {
                if j > i {
                    assert(e0[i as int].0.spec_lt(e0[j].0));
                }
            }
            assert(!old(self).has(key)) by {
                if old(self).has(key) {
                    let j = choose|j: int| 0 <= j < e0.len() && (#[trigger] e0[j]).0 == key;
                    if j < i {
                        assert(self.bins@[j].0.spec_lt(key));
                    } else {
                        assert(key.spec_lt(e0[j].0));
                    }
                }
            }
        }
        self.bins.insert(i, (key, bin));
        proof {
            let e1 = self.entries();
            assert(e1 == e0.insert(i as int, (key, bin)));
            assert forall|a: int, b: int| 0 <= a < b < e1.len() implies (#[trigger] e1[a]).0.spec_lt(
                (#[trigger] e1[b]).0,
            ) by {
                if a < i && b < i {
                    assert(e0[a].0.spec_lt(e0[b].0));
                } else if a < i && b == i {
                    assert(self.bins@[a].0.spec_lt(key)) by {
                        assert(e1[a] == e0[a]);
                    }
                } else if a < i {
                    assert(e0[a].0.spec_lt(e0[b - 1].0));
                } else if a == i {
                    assert(key.spec_lt(e0[b - 1].0));
                } else {
                    assert(e0[a - 1].0.spec_lt(e0[b - 1].0));
                }
            }
            assert forall|a: int, b: int|
                0 <= a < e1.len() && 0 <= b < e1.len() && a != b implies (#[trigger] e1[a]).0 != (#[trigger] e1[b]).0 by {
                if a < b {
                    assert(e1[a].0.spec_lt(e1[b].0));
                } else {
                    assert(e1[b].0.spec_lt(e1[a].0));
                }
            }
        }
        Ok(())
    }

    pub fn iter(&self) -> (r: &[(Version, AddressBin)])
        ensures
            r@ == self.entries(),
    {
        self.bins.as_slice()
    }

    /// The identifier after the largest one recorded in any bin, or the
    /// lowest identifier where no bin records any; an error where the
    /// largest recorded is the last valid identifier.
    pub fn largest_unused_id(&self) -> (r: Result<Id, IdRangeError>)
        ensures
            r is Ok ==> self.all_below(r->Ok_0@),
            r is Ok ==> r->Ok_0@ == 0 || self.records((r->Ok_0@ - 1) as u64),
            r is Err <==> self.records((u64::MAX - 1) as u64),
    {
        let mut found = false;
        let mut hi = Id::lowest();
        let mut b: usize = 0;
        while b < self.bins.len()
            invariant
                b <= self.bins.len(),
                self.bins@.len() == self.entries().len(),
                found ==> self.records(hi@),
                !found ==> forall|x: int| 0 <= x < b ==> (#[trigger] self.entries()[x]).1.mappings().len() == 0,
                forall|x: int, k: int|
                    0 <= x < b && 0 <= k < self.entries()[x].1.mappings().len()
                        ==> (#[trigger] self.entries()[x].1.mappings()[k]).0@ <= hi@,
            decreases self.bins.len() - b,
        {
            let entries = self.bins[b].1.iter();
            assert(self.bins@[b as int] == self.entries()[b as int]);
            let mut k: usize = 0;
            while k < entries.len()
                invariant
                    b < self.bins.len(),
                    self.bins@.len() == self.entries().len(),
                    entries@ == self.entries()[b as int].1.mappings(),
                    k <= entries.len(),
                    found ==> self.records(hi@),
                    !found ==> k == 0 && forall|x: int| 0 <= x < b ==> (#[trigger] self.entries()[x]).1.mappings().len() == 0,
                    forall|x: int, kk: int|
                        ((0 <= x < b && 0 <= kk < self.entries()[x].1.mappings().len()) || (x == b && 0 <= kk < k))
                            ==> (#[trigger] self.entries()[x].1.mappings()[kk]).0@ <= hi@,
                decreases entries.len() - k,
            {
                let id = entries[k].0;
                if !found || id.get() > hi.get() {
                    hi = id;
                    found = true;
                    assert(self.entries()[b as int].1.mappings()[k as int].0@ == hi@);
                }
                k = k + 1;
            }
            b = b + 1;
        }
        if !found {
            Ok(Id::lowest())
        } else {
            let h = hi.get();
            let r = hi.next();
            proof {
                if self.records((u64::MAX - 1) as u64) {
                    let (x, k) = choose|x: int, k: int|
                        0 <= x < self.entries().len() && 0 <= k < self.entries()[x].1.mappings().len()
                            && (#[trigger] self.entries()[x].1.mappings()[k]).0@ == (u64::MAX - 1) as u64;
                    assert(self.entries()[x].1.mappings()[k].0@ <= hi@);
                }
            }
            r
        }
    }
}

/// Relies on `slice::sort_by_key`: the records are reordered, ascending by
/// identifier.
#[verifier::external_body]
fn sort_by_id(v: &mut Vec<(u64, u64)>)
    ensures
        final(v)@.to_multiset() == old(v)@.to_multiset(),
        forall|i: int, j: int| 0 <= i < j < final(v)@.len() ==> final(v)@[i].0 <= final(v)@[j].0,
{
    v.sort_by_key(|x| x.0);
}

/// The (identifier, offset) record of each location of `list`, in its order.
pub open spec fn list_records(graph: &Graph, list: &OffsetList) -> Seq<(u64, u64)> {
    Seq::new(
        list.entries().len(),
        |i: int|
            (graph.labels()[list.entries()[i].1.ix.0 as int]->Some_0@, list.entries()[i].0.0 as u64),
    )
}

/// The records of a version's bin: one (identifier, offset) record per
/// location, ascending by identifier.
pub fn bin_mappings(graph: &Graph, list: &OffsetList) -> (r: Vec<(u64, u64)>)
    requires
        graph.complete(),
        list.nodes_below(graph.len()),
    ensures
        r@.to_multiset() == list_records(graph, list).to_multiset(),
        forall|i: int, j: int| 0 <= i < j < r@.len() ==> r@[i].0 <= r@[j].0,
        forall|i: int| 0 <= i < r@.len() ==> (#[trigger] r@[i]).0 != u64::MAX && r@[i].1 <= u32::MAX,
{
    let entries = list.iter();
    let mut v: Vec<(u64, u64)> = Vec::new();
    let mut i: usize = 0;
    while i < entries.len()
        invariant
            graph.complete(),
            list.nodes_below(graph.len()),
            entries@ == list.entries(),
            i <= entries@.len(),
            v@ == list_records(graph, list).subrange(0, i as int),
            forall|j: int| 0 <= j < v@.len() ==> (#[trigger] v@[j]).0 != u64::MAX && v@[j].1 <= u32::MAX,
        decreases entries.len() - i,
    {
        let (offset, mapping) = entries[i];
        let id = graph.get(mapping.ix);
        v.push((id.get(), offset.0 as u64));
        assert(v@ =~= list_records(graph, list).subrange(0, i + 1));
        i = i + 1;
    }
    assert(v@ =~= list_records(graph, list));
    let ghost before = v@;
    sort_by_id(&mut v);
    proof {
        assert forall|i: int| 0 <= i < v@.len() implies (#[trigger] v@[i]).0 != u64::MAX && v@[i].1 <= u32::MAX by {
            vstd::seq_lib::to_multiset_contains(v@, v@[i]);
            vstd::seq_lib::to_multiset_contains(before, v@[i]);
            assert(v@.contains(v@[i]));
            let j = choose|j: int| 0 <= j < before.len() && before[j] == v@[i];
            assert(before[j].0 != u64::MAX);
        }
    }
    v
}

/// The bin file of a version: its records, ascending by identifier.
pub fn bin_bytes(graph: &Graph, list: &OffsetList) -> (r: Vec<u8>)
    requires
        graph.complete(),
        list.nodes_below(graph.len()),
        8 + 16 * list.entries().len() <= usize::MAX,
    ensures
        exists|m: Seq<(u64, u64)>|
            m.to_multiset() == list_records(graph, list).to_multiset() && (forall|i: int, j: int|
                0 <= i < j < m.len() ==> m[i].0 <= m[j].0) && (forall|i: int|
                0 <= i < m.len() ==> (#[trigger] m[i]).0 != u64::MAX && m[i].1 <= u32::MAX) && m.len() < u64::MAX
                && r@ == #[trigger] encoded(m),
{
    let m = bin_mappings(graph, list);
    proof {
        vstd::seq_lib::to_multiset_len(m@);
        vstd::seq_lib::to_multiset_len(list_records(graph, list));
    }
    encode(m.as_slice())
}

/// The versions that have a location set but no bin yet, in the location
/// sets' order: those whose bin is still to be written.
pub fn versions_without_bin(offset_lists: &OffsetLists, address_bins: &AddressBins) -> (r: Vec<Version>)
    ensures
        r@ == offset_lists.entries().map_values(|e: (Version, OffsetList)| e.0).filter(
            |v: Version| !address_bins.has(v),
        ),
{
    let lists = offset_lists.iter();
    let mut r: Vec<Version> = Vec::new();
    let mut i: usize = 0;
    while i < lists.len()
        invariant
            lists@ == offset_lists.entries(),
            i <= lists@.len(),
            r@ == lists@.subrange(0, i as int).map_values(|e: (Version, OffsetList)| e.0).filter(
                |v: Version| !address_bins.has(v),
            ),
        decreases lists.len() - i,
    {
        let v = lists[i].0;
        let ghost pre = lists@.subrange(0, i as int).map_values(|e: (Version, OffsetList)| e.0);
        assert(lists@.subrange(0, i + 1).map_values(|e: (Version, OffsetList)| e.0) =~= pre.push(v));
        proof {
            pre.lemma_filter_push(v, |v: Version| !address_bins.has(v));
        }
        if !address_bins.contains_key(v) {
            r.push(v);
        }
        i = i + 1;
    }
    assert(lists@.subrange(0, lists@.len() as int) =~= lists@);
    r
}

} // verus!
