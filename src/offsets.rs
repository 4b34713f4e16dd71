use vstd::prelude::*;
use crate::common::{Offset, Version};
use crate::graph::{Graph, Ix};
use crate::text::{
    blank, blank_from, has_at, hex_run, hex_run_end, hex_value, is_blank, is_hex_digit,
    lemma_blank_from_ge, parse_hex, starts_with_at,
};

verus! {

/// The graph node that stands for one offset.
#[derive(Clone, Copy, Debug, PartialEq, Eq, Structural)]
pub struct Mapping {
    pub ix: Ix,
}

/// The locations of one version: each offset maps to exactly one node.
pub struct OffsetList {
    offsets: Vec<(Offset, Mapping)>,
}

impl OffsetList {
    /// The (offset, node) entries, each offset at most once.
    pub closed spec fn entries(&self) -> Seq<(Offset, Mapping)> {
        self.offsets@
    }

    pub open spec fn wf(&self) -> bool {
        forall|i: int, j: int|
            0 <= i < self.entries().len() && 0 <= j < self.entries().len() && i != j
                ==> (#[trigger] self.entries()[i]).0 != (#[trigger] self.entries()[j]).0
    }

    /// The node recorded for offset `key`, if any.
    pub open spec fn spec_get(&self, key: Offset) -> Option<Mapping> {
        if exists|i: int| 0 <= i < self.entries().len() && (#[trigger] self.entries()[i]).0 == key {
            let i = choose|i: int| 0 <= i < self.entries().len() && (#[trigger] self.entries()[i]).0 == key;
            Some(self.entries()[i].1)
        } else {
            None
        }
    }

    /// Every node named here is a node of a graph with `n` nodes.
    pub open spec fn nodes_below(&self, n: nat) -> bool {
        forall|i: int| 0 <= i < self.entries().len() ==> (#[trigger] self.entries()[i]).1.ix.0 < n
    }

    /// In a well-formed list the lookup finds the entry that holds the key.
    pub proof fn lemma_get_at(&self, i: int)
        requires
            self.wf(),
            0 <= i < self.entries().len(),
        ensures
            self.spec_get(self.entries()[i].0) == Some(self.entries()[i].1),
    {
        let key = self.entries()[i].0;
        let j = choose|j: int| 0 <= j < self.entries().len() && (#[trigger] self.entries()[j]).0 == key;
        assert(i == j);
    }

    pub fn new() -> (r: OffsetList)
        ensures
            r.wf(),
            r.entries().len() == 0,
    {
        OffsetList { offsets: Vec::new() }
    }

    /// Records `mapping` for `key`, replacing what was recorded for it.
    pub fn insert(&mut self, key: Offset, mapping: Mapping)
        requires
            old(self).wf(),
        ensures
            final(self).wf(),
            final(self).spec_get(key) == Some(mapping),
            old(self).spec_get(key) is None ==> final(self).entries() == old(self).entries().push((key, mapping)),
            forall|k: Offset| k != key ==> #[trigger] final(self).spec_get(k) == old(self).spec_get(k),
            forall|n: nat| old(self).nodes_below(n) && mapping.ix.0 < n ==> #[trigger] final(self).nodes_below(n),
    {
        let mut i: usize = 0;
        while i < self.offsets.len()
            invariant
                old(self).wf(),
                self.offsets@ == old(self).offsets@,
                i <= self.offsets.len(),
                forall|j: int| 0 <= j < i ==> (#[trigger] self.offsets@[j]).0 != key,
            decreases self.offsets.len() - i,
        {
            if self.offsets[i].0 == key {
                proof {
                    old(self).lemma_get_at(i as int);
                }
                self.offsets.set(i, (key, mapping));
                proof {
                    let e0 = old(self).entries();
                    assert forall|x: int, y: int|
                        0 <= x < self.entries().len() && 0 <= y < self.entries().len() && x != y
                            implies (#[trigger] self.entries()[x]).0 != (#[trigger] self.entries()[y]).0 by {
                        assert(self.entries()[x].0 == e0[x].0);
                        assert(self.entries()[y].0 == e0[y].0);
                    }
                    self.lemma_get_at(i as int);
                    assert forall|k: Offset| k != key implies #[trigger] self.spec_get(k) == old(self).spec_get(k) by {
                        if exists|j: int| 0 <= j < e0.len() && (#[trigger] e0[j]).0 == k {
                            let j = choose|j: int| 0 <= j < e0.len() && (#[trigger] e0[j]).0 == k;
                            assert(self.entries()[j] == e0[j]);
                            self.lemma_get_at(j);
                            old(self).lemma_get_at(j);
                        } else {
                            assert forall|j: int| 0 <= j < e0.len() implies (#[trigger] self.entries()[j]).0 != k by {
                                if j != i {
                                    assert(self.entries()[j] == e0[j]);
                                }
                            }
                        }
                    }
                    assert forall|n: nat| old(self).nodes_below(n) && mapping.ix.0 < n implies #[trigger] self.nodes_below(n) by {
                        assert forall|j: int| 0 <= j < self.entries().len() implies (#[trigger] self.entries()[j]).1.ix.0 < n by {
                            if j != i {
                                assert(self.entries()[j] == e0[j]);
                            }
                        }
                    }
                }
                return;
            }
            i = i + 1;
        }
        assert(forall|j: int| 0 <= j < old(self).entries().len() ==> (#[trigger] old(self).entries()[j]).0 != key) by {
            assert(forall|j: int| 0 <= j < old(self).entries().len() ==> old(self).entries()[j] == self.offsets@[j]);
        }
        self.offsets.push((key, mapping));
        proof {
            let e0 = old(self).entries();
            let last = e0.len() as int;
            assert forall|x: int, y: int|
                0 <= x < self.entries().len() && 0 <= y < self.entries().len() && x != y
                    implies (#[trigger] self.entries()[x]).0 != (#[trigger] self.entries()[y]).0 by {
                if x < last {
                    assert(self.entries()[x] == e0[x]);
                }
                if y < last {
                    assert(self.entries()[y] == e0[y]);
                }
            }
            self.lemma_get_at(last);
            assert forall|k: Offset| k != key implies #[trigger] self.spec_get(k) == old(self).spec_get(k) by {
                if exists|j: int| 0 <= j < e0.len() && (#[trigger] e0[j]).0 == k {
                    let j = choose|j: int| 0 <= j < e0.len() && (#[trigger] e0[j]).0 == k;
                    assert(self.entries()[j] == e0[j]);
                    self.lemma_get_at(j);
                    old(self).lemma_get_at(j);
                } else {
                    assert forall|j: int| 0 <= j < self.entries().len() implies (#[trigger] self.entries()[j]).0 != k by {
                        if j < last {
                            assert(self.entries()[j] == e0[j]);
                        }
                    }
                }
            }
            assert forall|n: nat| old(self).nodes_below(n) && mapping.ix.0 < n implies #[trigger] self.nodes_below(n) by {
                assert forall|j: int| 0 <= j < self.entries().len() implies (#[trigger] self.entries()[j]).1.ix.0 < n by {
                    if j < last {
                        assert(self.entries()[j] == e0[j]);
                    }
                }
            }
        }
    }

    /// The node recorded for `key`.
    pub fn get(&self, key: Offset) -> (r: Option<Mapping>)
        requires
            self.wf(),
        ensures
            r == self.spec_get(key),
            forall|n: nat| self.nodes_below(n) && r is Some ==> r->Some_0.ix.0 < n,
    {
        let mut i: usize = 0;
        while i < self.offsets.len()
            invariant
                self.wf(),
                i <= self.offsets.len(),
                forall|j: int| 0 <= j < i ==> (#[trigger] self.offsets@[j]).0 != key,
            decreases self.offsets.len() - i,
        {
            if self.offsets[i].0 == key {
                proof {
                    self.lemma_get_at(i as int);
                }
                return Some(self.offsets[i].1);
            }
            i = i + 1;
        }
        None
    }

    /// All (offset, node) entries.
    pub fn iter(&self) -> (r: &[(Offset, Mapping)])
        ensures
            r@ == self.entries(),
    {
        self.offsets.as_slice()
    }

    /// The location set of a version whose export lists `offsets`: one new,
    /// unlabeled node per distinct offset, in order of first listing.
    pub fn from_offsets(offsets: &Vec<Offset>, graph: &mut Graph) -> (r: OffsetList)
        requires
            old(graph).wf(),
            old(graph).len() + offsets@.len() <= usize::MAX,
        ensures
            r.wf(),
            final(graph).wf(),
            final(graph).len() == old(graph).len() + r.entries().len(),
            final(graph).len() == old(graph).len() + offsets@.to_set().len(),
            final(graph).labels() == old(graph).labels() + Seq::new(r.entries().len(), |i: int| None::<crate::common::Id>),
            forall|i: int, j: int| #[trigger] final(graph).edge(i, j) == old(graph).edge(i, j),
            r.nodes_below(final(graph).len()),
            forall|j: int| 0 <= j < r.entries().len() ==> (#[trigger] r.entries()[j]).1.ix.0 == old(graph).len() + j,
            forall|k: Offset| #[trigger] r.spec_get(k) is Some <==> offsets@.contains(k),
    {
        let mut r = OffsetList::new();
        let mut i: usize = 0;
        while i < offsets.len()
            invariant
                r.wf(),
                graph.wf(),
                old(graph).len() + offsets@.len() <= usize::MAX,
                i <= offsets.len(),
                r.entries().len() <= i,
                graph.len() == old(graph).len() + r.entries().len(),
                graph.labels() == old(graph).labels() + Seq::new(r.entries().len(), |i: int| None::<crate::common::Id>),
                forall|a: int, b: int| #[trigger] graph.edge(a, b) == old(graph).edge(a, b),
                r.nodes_below(graph.len()),
                forall|j: int| 0 <= j < r.entries().len() ==> (#[trigger] r.entries()[j]).1.ix.0 == old(graph).len() + j,
                forall|k: Offset| #[trigger] r.spec_get(k) is Some <==> offsets@.subrange(0, i as int).contains(k),
            decreases offsets.len() - i,
        {
            let key = offsets[i];
            if r.get(key).is_none() {
                let ghost e0 = r.entries();
                let ix = graph.add_node();
                r.insert(key, Mapping { ix });
                proof {
                    assert(r.entries() == e0.push((key, Mapping { ix })));
                    assert(graph.labels() =~= old(graph).labels() + Seq::new(r.entries().len(), |i: int| None::<crate::common::Id>));
                }
            }
            proof {
                assert forall|k: Offset| #[trigger] r.spec_get(k) is Some <==> offsets@.subrange(0, i + 1).contains(k) by {
                    if k != key {
                        if offsets@.subrange(0, i as int).contains(k) {
                            let j = choose|j: int| 0 <= j < i && #[trigger] offsets@.subrange(0, i as int)[j] == k;
                            assert(offsets@.subrange(0, i + 1)[j] == k);
                        }
                        if offsets@.subrange(0, i + 1).contains(k) {
                            let j = choose|j: int| 0 <= j < i + 1 && #[trigger] offsets@.subrange(0, i + 1)[j] == k;
                            assert(offsets@.subrange(0, i as int)[j] == k);
                        }
                    } else {
                        assert(offsets@.subrange(0, i + 1)[i as int] == k);
                    }
                }
            }
            i = i + 1;
        }
        proof {
            assert(offsets@.subrange(0, offsets@.len() as int) =~= offsets@);
            let keys = r.entries().map_values(|e: (Offset, Mapping)| e.0);
            assert(keys.no_duplicates()) by {
                assert forall|x: int, y: int| 0 <= x < keys.len() && 0 <= y < keys.len() && x != y
                    implies keys[x] != keys[y] by {
                    assert(r.entries()[x].0 != r.entries()[y].0);
                }
            }
            assert(keys.to_set() =~= offsets@.to_set()) by {
                assert forall|k: Offset| keys.to_set().contains(k) <==> offsets@.to_set().contains(k) by {
                    if keys.contains(k) {
                        let x = choose|x: int| 0 <= x < keys.len() && keys[x] == k;
                        r.lemma_get_at(x);
                    }
                    if offsets@.contains(k) {
                        assert(r.spec_get(k) is Some);
                        let x = choose|x: int| 0 <= x < r.entries().len() && (#[trigger] r.entries()[x]).0 == k;
                        assert(keys[x] == k);
                    }
                }
            }
            keys.unique_seq_to_set();
        }
        r
    }
}

/// The location sets of all versions, at most one per version.
pub struct OffsetLists {
    db: Vec<(Version, OffsetList)>,
}

impl OffsetLists {
    /// The (version, location set) entries, each version at most once,
    /// ascending by version.
    pub closed spec fn entries(&self) -> Seq<(Version, OffsetList)> {
        self.db@
    }

    pub open spec fn wf(&self) -> bool {
        &&& forall|i: int, j: int|
            0 <= i < j < self.entries().len() ==> (#[trigger] self.entries()[i]).0.spec_lt(
                (#[trigger] self.entries()[j]).0,
            )
        &&& forall|i: int, j: int|
            0 <= i < self.entries().len() && 0 <= j < self.entries().len() && i != j
                ==> (#[trigger] self.entries()[i]).0 != (#[trigger] self.entries()[j]).0
        &&& forall|i: int| 0 <= i < self.entries().len() ==> (#[trigger] self.entries()[i]).1.wf()
    }

    /// Every node named in any location set is a node of a graph with `n` nodes.
    pub open spec fn nodes_below(&self, n: nat) -> bool {
        forall|i: int| 0 <= i < self.entries().len() ==> (#[trigger] self.entries()[i]).1.nodes_below(n)
    }

    /// The location set recorded for `key`, if any.
    pub open spec fn spec_get(&self, key: Version) -> Option<OffsetList> {
        if exists|i: int| 0 <= i < self.entries().len() && (#[trigger] self.entries()[i]).0 == key {
            let i = choose|i: int| 0 <= i < self.entries().len() && (#[trigger] self.entries()[i]).0 == key;
            Some(self.entries()[i].1)
        } else {
            None
        }
    }

    /// In a well-formed collection the lookup finds the entry that holds the key.
    pub proof fn lemma_get_at(&self, i: int)
        requires
            self.wf(),
            0 <= i < self.entries().len(),
        ensures
            self.spec_get(self.entries()[i].0) == Some(self.entries()[i].1),
    {
        let key = self.entries()[i].0;
        let j = choose|j: int| 0 <= j < self.entries().len() && (#[trigger] self.entries()[j]).0 == key;
        assert(i == j);
    }

    pub fn new() -> (r: OffsetLists)
        ensures
            r.wf(),
            r.entries().len() == 0,
    {
        OffsetLists { db: Vec::new() }
    }

    /// Records the location set of a version not recorded yet, in version
    /// order; a version already recorded leaves the collection as it is and
    /// the set is handed back.
    pub fn insert(&mut self, key: Version, list: OffsetList) -> (r: Result<(), OffsetList>)
        requires
            old(self).wf(),
            list.wf(),
        ensures
            final(self).wf(),
            old(self).spec_get(key) is Some ==> r is Err && final(self).entries() == old(self).entries(),
            old(self).spec_get(key) is None ==> r is Ok && exists|p: int|
                0 <= p <= old(self).entries().len() && final(self).entries() == old(self).entries().insert(
                    p,
                    (key, list),
                ),
            old(self).spec_get(key) is None ==> final(self).spec_get(key) == Some(list),
            forall|k: Version| k != key ==> #[trigger] final(self).spec_get(k) == old(self).spec_get(k),
            forall|n: nat| old(self).nodes_below(n) && list.nodes_below(n) ==> #[trigger] final(self).nodes_below(n),
    {
        let mut i: usize = 0;
        while i < self.db.len() && self.db[i].0.lt(&key)
            invariant
                self.wf(),
                self.db@ == old(self).db@,
                i <= self.db.len(),
                forall|j: int| 0 <= j < i ==> (#[trigger] self.db@[j]).0.spec_lt(key),
            decreases self.db.len() - i,
        {
            i = i + 1;
        }
        if i < self.db.len() && self.db[i].0 == key {
            proof {
                self.lemma_get_at(i as int);
            }
            return Err(list);
        }
        let ghost e0 = old(self).entries();
        proof {
            assert forall|j: int| i <= j < e0.len() implies key.spec_lt((#[trigger] e0[j]).0) by {
                if j > i {
                    assert(e0[i as int].0.spec_lt(e0[j].0));
                }
            }
            assert(!(exists|j: int| 0 <= j < e0.len() && (#[trigger] e0[j]).0 == key)) by {
                if exists|j: int| 0 <= j < e0.len() && (#[trigger] e0[j]).0 == key {
                    let j = choose|j: int| 0 <= j < e0.len() && (#[trigger] e0[j]).0 == key;
                    if j < i {
                        assert(self.db@[j].0.spec_lt(key));
                    } else {
                        assert(key.spec_lt(e0[j].0));
                    }
                }
            }
        }
        self.db.insert(i, (key, list));
        proof {
            let e1 = self.entries();
            assert(e1 == e0.insert(i as int, (key, list)));
            assert forall|a: int, b: int| 0 <= a < b < e1.len() implies (#[trigger] e1[a]).0.spec_lt(
                (#[trigger] e1[b]).0,
            ) by {
                if a < i && b < i {
                    assert(e0[a].0.spec_lt(e0[b].0));
                } else if a < i && b == i {
                    assert(self.db@[a].0.spec_lt(key)) by {
                        assert(e1[a] == e0[a]);
                    }
                } else if a < i {
                    assert(e0[a].0.spec_lt(e0[b - 1].0));
                } else if a == i {
                    assert(key.spec_lt(e0[b - 1].0));
                } else {
                    assert(e0[a - 1].0.spec_lt(e0[b - 1].0));
                }
            }
            assert forall|a: int, b: int|
                0 <= a < e1.len() && 0 <= b < e1.len() && a != b implies (#[trigger] e1[a]).0 != (#[trigger] e1[b]).0 by {
                if a < b {
                    assert(e1[a].0.spec_lt(e1[b].0));
                } else {
                    assert(e1[b].0.spec_lt(e1[a].0));
                }
            }
            assert forall|a: int| 0 <= a < e1.len() implies (#[trigger] e1[a]).1.wf() by {
                if a < i {
                    assert(e1[a] == e0[a]);
                } else if a > i {
                    assert(e1[a] == e0[a - 1]);
                }
            }
            self.lemma_get_at(i as int);
            assert forall|k: Version| k != key implies #[trigger] self.spec_get(k) == old(self).spec_get(k) by {
                if exists|j: int| 0 <= j < e0.len() && (#[trigger] e0[j]).0 == k {
                    let j = choose|j: int| 0 <= j < e0.len() && (#[trigger] e0[j]).0 == k;
                    old(self).lemma_get_at(j);
                    let j1 = if j < i { j } else { j + 1 };
                    assert(e1[j1] == e0[j]);
                    self.lemma_get_at(j1);
                } else {
                    assert forall|j: int| 0 <= j < e1.len() implies (#[trigger] e1[j]).0 != k by {
                        if j < i {
                            assert(e1[j] == e0[j]);
                        } else if j > i {
                            assert(e1[j] == e0[j - 1]);
                        }
                    }
                }
            }
            assert forall|n: nat| old(self).nodes_below(n) && list.nodes_below(n) implies #[trigger] self.nodes_below(n) by {
                assert forall|a: int| 0 <= a < e1.len() implies (#[trigger] e1[a]).1.nodes_below(n) by {
                    if a < i {
                        assert(e1[a] == e0[a]);
                    } else if a > i {
                        assert(e1[a] == e0[a - 1]);
                    }
                }
            }
        }
        Ok(())
    }

    /// The location set of version `key`.
    pub fn get(&self, key: Version) -> (r: Option<&OffsetList>)
        requires
            self.wf(),
        ensures
            r is Some <==> self.spec_get(key) is Some,
            r is Some ==> *r->Some_0 == self.spec_get(key)->Some_0,
            r is Some ==> r->Some_0.wf(),
            forall|n: nat| self.nodes_below(n) && r is Some ==> #[trigger] r->Some_0.nodes_below(n),
    {
        let mut i: usize = 0;
        while i < self.db.len()
            invariant
                self.wf(),
                i <= self.db.len(),
                forall|j: int| 0 <= j < i ==> (#[trigger] self.db@[j]).0 != key,
            decreases self.db.len() - i,
        {
            if self.db[i].0 == key {
                proof {
                    self.lemma_get_at(i as int);
                }
                return Some(&self.db[i].1);
            }
            i = i + 1;
        }
        None
    }

    /// All (version, location set) entries, in insertion order.
    pub fn iter(&self) -> (r: &[(Version, OffsetList)])
        ensures
            r@ == self.entries(),
    {
        self.db.as_slice()
    }
}

/// The three export files of a version, each listing one kind of location.
#[derive(Clone, Copy, Debug, PartialEq, Eq, Structural)]
pub enum ExportKind {
    /// `func` lines: start and end address.
    Function,
    /// `global` lines.
    Global,
    /// `name` lines.
    Name,
}

/// Why an export file cannot be read.
#[derive(Clone, Copy, Debug, PartialEq, Eq, Structural)]
pub enum ExportError {
    /// The first line is not `version`, a tab and a number.
    NoVersion,
    /// The format version is not 1.
    UnsupportedVersion,
    /// The second line of the base file is not `baseaddress`, a tab and a hexadecimal address.
    NoBaseAddress,
    /// Line `at` does not have the kind's layout.
    NoMatch { at: usize },
    /// The address on line `at` does not fit 64 bits.
    BadAddress { at: usize },
    /// The address on line `at` lies below the base address.
    BelowBase { at: usize },
    /// The address on line `at` lies too far above the base address for a 32-bit offset.
    TooFar { at: usize },
}

/// The word that starts each line of a kind's export file.
pub open spec fn keyword(kind: ExportKind) -> Seq<u8> {
    match kind {
        ExportKind::Function => seq![102u8, 117, 110, 99],
        ExportKind::Global => seq![103u8, 108, 111, 98, 97, 108],
        ExportKind::Name => seq![110u8, 97, 109, 101],
    }
}

pub open spec fn is_decimal_digit(c: u8) -> bool {
    48 <= c <= 57
}

/// Line `i` of `lines`, or nothing past the end.
pub open spec fn line_at(lines: Seq<Vec<u8>>, i: int) -> Seq<u8> {
    if 0 <= i < lines.len() {
        lines[i]@
    } else {
        Seq::empty()
    }
}

/// A header starts at position `p`: `version`, a tab and a decimal digit.
pub open spec fn version_match_at(s: Seq<u8>, p: int) -> bool {
    has_at(s, p, seq![118u8, 101, 114, 115, 105, 111, 110, 9]) && p + 8 < s.len() && is_decimal_digit(s[p + 8])
}

/// The first position from `p` on where a header starts.
pub open spec fn first_version_from(s: Seq<u8>, p: int) -> Option<int>
    decreases s.len() + 1 - p,
{
    if p < 0 || p > s.len() {
        None
    } else if version_match_at(s, p) {
        Some(p)
    } else {
        first_version_from(s, p + 1)
    }
}

/// The header line of an export file: its first `version`, tab and number;
/// the number must be 1.
pub open spec fn version_line_result(s: Seq<u8>) -> Result<(), ExportError> {
    match first_version_from(s, 0) {
        None => Err(ExportError::NoVersion),
        Some(p) => if s[p + 8] == 49 && (p + 9 == s.len() || !is_decimal_digit(s[p + 9])) {
            Ok(())
        } else {
            Err(ExportError::UnsupportedVersion)
        },
    }
}

/// A base address starts at position `p`: `baseaddress`, a tab and a
/// hexadecimal digit.
pub open spec fn base_match_at(s: Seq<u8>, p: int) -> bool {
    has_at(s, p, seq![98u8, 97, 115, 101, 97, 100, 100, 114, 101, 115, 115, 9]) && hex_run_end(s, p + 12) > p + 12
}

/// The first position from `p` on where a base address starts.
pub open spec fn first_base_from(s: Seq<u8>, p: int) -> Option<int>
    decreases s.len() + 1 - p,
{
    if p < 0 || p > s.len() {
        None
    } else if base_match_at(s, p) {
        Some(p)
    } else {
        first_base_from(s, p + 1)
    }
}

/// The base-address line: its first `baseaddress`, tab and hexadecimal address.
pub open spec fn base_line_result(s: Seq<u8>) -> Result<u64, ExportError> {
    match first_base_from(s, 0) {
        None => Err(ExportError::NoBaseAddress),
        Some(p) => {
            let v = hex_value(s.subrange(p + 12, hex_run_end(s, p + 12)));
            if v > u64::MAX {
                Err(ExportError::NoBaseAddress)
            } else {
                Ok(v as u64)
            }
        },
    }
}

/// A location of `kind` starts at position `p`: the kind's word, a tab and
/// a hexadecimal address (for functions, then a tab and a hexadecimal digit).
pub open spec fn export_match_at(s: Seq<u8>, kind: ExportKind, p: int) -> bool {
    let k = keyword(kind).len() as int;
    let e = hex_run_end(s, p + k + 1);
    has_at(s, p, keyword(kind)) && p + k < s.len() && s[p + k] == 9 && e > p + k + 1 && (kind != ExportKind::Function
        || (e + 1 < s.len() && s[e] == 9 && is_hex_digit(s[e + 1])))
}

/// The first position from `p` on where a location of `kind` starts.
pub open spec fn first_export_from(s: Seq<u8>, kind: ExportKind, p: int) -> Option<int>
    decreases s.len() + 1 - p,
{
    if p < 0 || p > s.len() {
        None
    } else if export_match_at(s, kind, p) {
        Some(p)
    } else {
        first_export_from(s, kind, p + 1)
    }
}

/// What line `at` of a kind's export file gives: the address of its first
/// location of that kind, less the base address.
pub open spec fn export_line_result(s: Seq<u8>, kind: ExportKind, base: u64, at: usize) -> Result<Offset, ExportError> {
    match first_export_from(s, kind, 0) {
        None => Err(ExportError::NoMatch { at }),
        Some(p) => {
            let k = keyword(kind).len() as int;
            let a = hex_value(s.subrange(p + k + 1, hex_run_end(s, p + k + 1)));
            if a > u64::MAX {
                Err(ExportError::BadAddress { at })
            } else if a < base {
                Err(ExportError::BelowBase { at })
            } else if a - base > u32::MAX {
                Err(ExportError::TooFar { at })
            } else {
                Ok(Offset((a - base) as u32))
            }
        },
    }
}

fn keyword_at(s: &[u8], p: usize, kind: ExportKind) -> (r: bool)
    ensures
        r == has_at(s@, p as int, keyword(kind)),
{
    match kind {
        ExportKind::Function => {
            let w: [u8; 4] = [102, 117, 110, 99];
            assert(w@ =~= keyword(kind));
            starts_with_at(s, p, &w)
        },
        ExportKind::Global => {
            let w: [u8; 6] = [103, 108, 111, 98, 97, 108];
            assert(w@ =~= keyword(kind));
            starts_with_at(s, p, &w)
        },
        ExportKind::Name => {
            let w: [u8; 4] = [110, 97, 109, 101];
            assert(w@ =~= keyword(kind));
            starts_with_at(s, p, &w)
        },
    }
}

fn keyword_len(kind: ExportKind) -> (r: usize)
    ensures
        r == keyword(kind).len(),
{
    match kind {
        ExportKind::Global => 6,
        _ => 4,
    }
}

/// Reads the header line of an export file.
pub fn parse_version_line(s: &[u8]) -> (r: Result<(), ExportError>)
    ensures
        r == version_line_result(s@),
{
    let w: [u8; 8] = [118, 101, 114, 115, 105, 111, 110, 9];
    assert(w@ =~= seq![118u8, 101, 114, 115, 105, 111, 110, 9]);
    let mut p: usize = 0;
    while p <= s.len()
        invariant
            p <= s@.len() + 1,
            s@.len() == s.len(),
            w@ == seq![118u8, 101, 114, 115, 105, 111, 110, 9],
            first_version_from(s@, 0) == first_version_from(s@, p as int),
        decreases s@.len() + 1 - p,
    {
        if starts_with_at(s, p, &w) && s.len() - p > 8 && 48 <= s[p + 8] && s[p + 8] <= 57 {
            let ok = s[p + 8] == 49 && (s.len() - p == 9 || !(48 <= s[p + 9] && s[p + 9] <= 57));
            return if ok {
                Ok(())
            } else {
                Err(ExportError::UnsupportedVersion)
            };
        }
        if p == s.len() {
            assert(first_version_from(s@, p + 1) is None);
            return Err(ExportError::NoVersion);
        }
        p = p + 1;
    }
    Err(ExportError::NoVersion)
}

/// Reads the base-address line of an export file.
pub fn parse_base_line(s: &[u8]) -> (r: Result<u64, ExportError>)
    ensures
        r == base_line_result(s@),
{
    let w: [u8; 12] = [98, 97, 115, 101, 97, 100, 100, 114, 101, 115, 115, 9];
    assert(w@ =~= seq![98u8, 97, 115, 101, 97, 100, 100, 114, 101, 115, 115, 9]);
    let mut p: usize = 0;
    while p <= s.len()
        invariant
            p <= s@.len() + 1,
            s@.len() == s.len(),
            w@ == seq![98u8, 97, 115, 101, 97, 100, 100, 114, 101, 115, 115, 9],
            first_base_from(s@, 0) == first_base_from(s@, p as int),
        decreases s@.len() + 1 - p,
    {
        if starts_with_at(s, p, &w) && s.len() - p >= 12 {
            let e = hex_run(s, p + 12);
            if e > p + 12 {
                return match parse_hex(s, p + 12, e) {
                    Some(a) => Ok(a),
                    None => Err(ExportError::NoBaseAddress),
                };
            }
        }
        if p == s.len() {
            assert(first_base_from(s@, p + 1) is None);
            return Err(ExportError::NoBaseAddress);
        }
        p = p + 1;
    }
    Err(ExportError::NoBaseAddress)
}

/// Whether a location of `kind` starts at `p`; where it does, the end of its address.
fn export_at(s: &[u8], kind: ExportKind, p: usize) -> (r: Option<usize>)
    requires
        p <= s@.len(),
    ensures
        r is Some <==> export_match_at(s@, kind, p as int),
        r is Some ==> r->Some_0 == hex_run_end(s@, p + keyword(kind).len() + 1),
        r is Some ==> p + keyword(kind).len() + 1 < r->Some_0 <= s@.len(),
        r is Some ==> forall|i: int|
            p + keyword(kind).len() + 1 <= i < r->Some_0 ==> is_hex_digit(#[trigger] s@[i]),
{
    let k = keyword_len(kind);
    if !(keyword_at(s, p, kind) && s.len() - p > k && s[p + k] == 9) {
        return None;
    }
    let e = hex_run(s, p + k + 1);
    if e <= p + k + 1 {
        return None;
    }
    match kind {
        ExportKind::Function => {
            if !(e < s.len() && s.len() - e > 1 && s[e] == 9 && (48 <= s[e + 1] && s[e + 1] <= 57 || 65 <= s[e + 1]
                && s[e + 1] <= 70 || 97 <= s[e + 1] && s[e + 1] <= 102)) {
                return None;
            }
        },
        _ => {},
    }
    Some(e)
}

/// Reads line `at` of a kind's export file as an offset from `base`.
pub fn parse_export_line(s: &[u8], kind: ExportKind, base: u64, at: usize) -> (r: Result<Offset, ExportError>)
    ensures
        r == export_line_result(s@, kind, base, at),
{
    let mut p: usize = 0;
    while p <= s.len()
        invariant
            p <= s@.len() + 1,
            s@.len() == s.len(),
            first_export_from(s@, kind, 0) == first_export_from(s@, kind, p as int),
        decreases s@.len() + 1 - p,
    {
        if let Some(e) = export_at(s, kind, p) {
            let k = keyword_len(kind);
            let address = match parse_hex(s, p + k + 1, e) {
                Some(a) => a,
                None => {
                    return Err(ExportError::BadAddress { at });
                },
            };
            if address < base {
                return Err(ExportError::BelowBase { at });
            }
            if address - base > 0xffff_ffff {
                return Err(ExportError::TooFar { at });
            }
            return Ok(Offset((address - base) as u32));
        }
        if p == s.len() {
            assert(first_export_from(s@, kind, p + 1) is None);
            return Err(ExportError::NoMatch { at });
        }
        p = p + 1;
    }
    Err(ExportError::NoMatch { at })
}

fn line_slice(lines: &[Vec<u8>], i: usize) -> (r: &[u8])
    ensures
        r@ == line_at(lines@, i as int),
{
    if i < lines.len() {
        lines[i].as_slice()
    } else {
        &[]
    }
}

impl OffsetList {
    /// Reads the base file of an export: its header line, then the base address.
    pub fn parse_base_address(lines: &[Vec<u8>]) -> (r: Result<u64, ExportError>)
        ensures
            version_line_result(line_at(lines@, 0)) is Err ==> r == Err::<u64, ExportError>(
                version_line_result(line_at(lines@, 0))->Err_0,
            ),
            version_line_result(line_at(lines@, 0)) is Ok ==> r == base_line_result(line_at(lines@, 1)),
    {
        parse_version_line(line_slice(lines, 0))?;
        parse_base_line(line_slice(lines, 1))
    }

    /// Reads a kind's export file: its header line, then one location per
    /// line up to the end or the first blank line, each as an offset from
    /// `base_address`.
    pub fn parse_generic_offsets(lines: &[Vec<u8>], base_address: u64, kind: ExportKind) -> (r: Result<
        Vec<Offset>,
        ExportError,
    >)
        ensures
            version_line_result(line_at(lines@, 0)) is Err ==> r == Err::<Vec<Offset>, ExportError>(
                version_line_result(line_at(lines@, 0))->Err_0,
            ),
            ({
                let stop = blank_from(lines@, 1);
                version_line_result(line_at(lines@, 0)) is Ok ==> (r is Ok <==> forall|j: int|
                    1 <= j < stop ==> (#[trigger] export_line_result(lines@[j]@, kind, base_address, j as usize)) is Ok)
                    && (r is Ok ==> r->Ok_0@.len() == stop - 1 && forall|j: int|
                    0 <= j < r->Ok_0@.len() ==> Ok::<Offset, ExportError>(#[trigger] r->Ok_0@[j]) == export_line_result(
                        lines@[j + 1]@,
                        kind,
                        base_address,
                        (j + 1) as usize,
                    ))
            }),
    {
        parse_version_line(line_slice(lines, 0))?;
        let mut offsets: Vec<Offset> = Vec::new();
        if lines.len() == 0 {
            assert(blank_from(lines@, 1) == 1);
            return Ok(offsets);
        }
        let mut i: usize = 1;
        while i < lines.len() && !blank(lines[i].as_slice())
            invariant
                version_line_result(line_at(lines@, 0)) is Ok,
                1 <= i <= lines@.len(),
                blank_from(lines@, 1) == blank_from(lines@, i as int),
                offsets@.len() == i - 1,
                forall|j: int|
                    1 <= j < i ==> (#[trigger] export_line_result(lines@[j]@, kind, base_address, j as usize)) is Ok,
                forall|j: int|
                    0 <= j < offsets@.len() ==> Ok::<Offset, ExportError>(#[trigger] offsets@[j]) == export_line_result(
                        lines@[j + 1]@,
                        kind,
                        base_address,
                        (j + 1) as usize,
                    ),
            decreases lines.len() - i,
        {
            match parse_export_line(lines[i].as_slice(), kind, base_address, i) {
                Ok(o) => offsets.push(o),
                Err(e) => {
                    proof {
                        lemma_blank_from_ge(lines@, i + 1);
                        assert(((i as int) as usize) == i);
                        assert(export_line_result(lines@[i as int]@, kind, base_address, (i as int) as usize) is Err);
                    }
                    return Err(e);
                },
            }
            i = i + 1;
        }
        assert(blank_from(lines@, i as int) == i as int);
        Ok(offsets)
    }
}

} // verus!
