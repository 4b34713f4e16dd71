use vstd::prelude::*;
use crate::addrlib::AddressBins;
use crate::common::{Id, IdRangeError, Offset, Version};
use crate::diffs::DiffLists;
use crate::offsets::OffsetLists;

verus! {

/// Handle of a location node; handles are dense and follow creation order.
#[derive(Clone, Copy, Debug, PartialEq, Eq, Structural)]
pub struct Ix(pub usize);

/// Why a labelling phase stopped.
#[derive(Clone, Copy, Debug, PartialEq, Eq, Structural)]
pub enum AssignError {
    /// A node reached from an unlabeled node already carries an identifier.
    AlreadyAssigned,
    /// No identifier is left to mint.
    IdRange(IdRangeError),
}

/// Why building or seeding the graph stopped.
#[derive(Clone, Copy, Debug, PartialEq, Eq, Structural)]
pub enum GraphError {
    /// Diff or bin data names a version that has no location set.
    MissingOffsets(Version),
    /// A bin gives a node an identifier other than the one it carries.
    Conflict { version: Version, offset: Offset, seed: Id, existing: Id },
}

/// Entry `k` of diff report `l` joins node `i` (left) to node `j` (right).
pub open spec fn diff_joins(ol: &OffsetLists, dl: &DiffLists, l: int, k: int, i: int, j: int) -> bool {
    &&& 0 <= l < dl.lists().len()
    &&& 0 <= k < dl.lists()[l].diffs@.len()
    &&& ol.spec_get(dl.lists()[l].left) is Some
    &&& ol.spec_get(dl.lists()[l].right) is Some
    &&& ol.spec_get(dl.lists()[l].left)->Some_0.spec_get(dl.lists()[l].diffs@[k].left) is Some
    &&& ol.spec_get(dl.lists()[l].right)->Some_0.spec_get(dl.lists()[l].diffs@[k].right) is Some
    &&& ol.spec_get(dl.lists()[l].left)->Some_0.spec_get(dl.lists()[l].diffs@[k].left)->Some_0.ix.0 == i
    &&& ol.spec_get(dl.lists()[l].right)->Some_0.spec_get(dl.lists()[l].diffs@[k].right)->Some_0.ix.0 == j
}

/// Some diff entry joins node `i` to node `j`.
pub open spec fn diff_edge(ol: &OffsetLists, dl: &DiffLists, i: int, j: int) -> bool {
    exists|l: int, k: int| #[trigger] diff_joins(ol, dl, l, k, i, j)
}

/// Both versions of every diff report have a location set.
pub open spec fn diff_versions_known(ol: &OffsetLists, dl: &DiffLists) -> bool {
    forall|l: int|
        0 <= l < dl.lists().len() ==> ol.spec_get((#[trigger] dl.lists()[l]).left) is Some
            && ol.spec_get(dl.lists()[l].right) is Some
}

/// The node that entry `k` of bin `b` names, where its version has a
/// location set holding its offset.
pub open spec fn bin_node(ol: &OffsetLists, ab: &AddressBins, b: int, k: int) -> Option<int> {
    let v = ab.entries()[b].0;
    let e = ab.entries()[b].1.mappings()[k];
    if ol.spec_get(v) is Some && ol.spec_get(v)->Some_0.spec_get(e.1) is Some {
        Some(ol.spec_get(v)->Some_0.spec_get(e.1)->Some_0.ix.0 as int)
    } else {
        None
    }
}

/// The version of every bin has a location set.
pub open spec fn bin_versions_known(ol: &OffsetLists, ab: &AddressBins) -> bool {
    forall|b: int| 0 <= b < ab.entries().len() ==> ol.spec_get((#[trigger] ab.entries()[b]).0) is Some
}

/// Every bin entry that names a node gives it the identifier it carries in `labels`.
pub open spec fn bins_agree(ol: &OffsetLists, ab: &AddressBins, labels: Seq<Option<Id>>) -> bool {
    forall|b: int, k: int|
        0 <= b < ab.entries().len() && 0 <= k < ab.entries()[b].1.mappings().len() && (#[trigger] bin_node(ol, ab, b, k)) is Some
            ==> labels[bin_node(ol, ab, b, k)->Some_0] == Some(ab.entries()[b].1.mappings()[k].0)
}

/// The identifier of entry `k` of bin `b`.
pub open spec fn entry_id(ab: &AddressBins, b: int, k: int) -> Id {
    ab.entries()[b].1.mappings()[k].0
}

/// Entry `k` of bin `b` names a node in the component of node `n` of `g`.
pub open spec fn reaches(g: &Graph, ol: &OffsetLists, ab: &AddressBins, b: int, k: int, n: int) -> bool {
    &&& 0 <= b < ab.entries().len()
    &&& 0 <= k < ab.entries()[b].1.mappings().len()
    &&& bin_node(ol, ab, b, k) is Some
    &&& g.connected(bin_node(ol, ab, b, k)->Some_0, n)
}

/// The bins contradict each other (two entries with different identifiers
/// name nodes of one component) or the labels of `g` (an entry names a node
/// that carries another identifier).
pub open spec fn bins_conflict(g: &Graph, ol: &OffsetLists, ab: &AddressBins) -> bool {
    ||| exists|b1: int, k1: int, b2: int, k2: int|
        0 <= b2 < ab.entries().len() && 0 <= k2 < ab.entries()[b2].1.mappings().len() && bin_node(ol, ab, b2, k2) is Some
            && #[trigger] reaches(g, ol, ab, b1, k1, bin_node(ol, ab, b2, k2)->Some_0) && entry_id(ab, b1, k1)
            != entry_id(ab, b2, k2)
    ||| exists|b: int, k: int|
        0 <= b < ab.entries().len() && 0 <= k < ab.entries()[b].1.mappings().len() && (#[trigger] bin_node(
            ol,
            ab,
            b,
            k,
        )) is Some && g.labels()[bin_node(ol, ab, b, k)->Some_0] is Some && g.labels()[bin_node(ol, ab, b, k)->Some_0]
            != Some(entry_id(ab, b, k))
}

/// `labels` is what seeding the bins leaves in `g`: a node that some entry
/// reaches carries that entry's identifier; every other node keeps its label.
pub open spec fn seeded_by_bins(g: &Graph, ol: &OffsetLists, ab: &AddressBins, labels: Seq<Option<Id>>) -> bool {
    &&& labels.len() == g.len()
    &&& forall|n: int, b: int, k: int|
        0 <= n < g.len() && #[trigger] reaches(g, ol, ab, b, k, n) ==> labels[n] == Some(entry_id(ab, b, k))
    &&& forall|n: int|
        0 <= n < g.len() && (forall|b: int, k: int| !#[trigger] reaches(g, ol, ab, b, k, n)) ==> #[trigger] labels[n]
            == g.labels()[n]
}

/// The labels that seeding `id` at `root` leaves in a settled graph `g`
/// labelled `labels`: where the root is unlabeled, its whole component takes
/// `id`; else nothing changes.
pub open spec fn seeded_labels(g: &Graph, labels: Seq<Option<Id>>, root: int, id: Id) -> Seq<Option<Id>> {
    if labels[root] is Some {
        labels
    } else {
        Seq::new(labels.len(), |i: int| if g.connected(root, i) { Some(id) } else { labels[i] })
    }
}

/// Undirected correlation graph over location nodes, each holding at most one
/// identifier. Nodes live in an arena indexed by `Ix`; edges are kept as
/// symmetric adjacency lists.
pub struct Graph {
    labels: Vec<Option<Id>>,
    adjacency: Vec<Vec<usize>>,
}

/// Number of unlabeled entries.
pub open spec fn unlabeled_count(s: Seq<Option<Id>>) -> nat
    decreases s.len(),
{
    if s.len() == 0 {
        0
    } else {
        unlabeled_count(s.drop_last()) + if s.last() is None {
            1nat
        } else {
            0nat
        }
    }
}

proof fn lemma_unlabeled_count_label(s: Seq<Option<Id>>, i: int, v: Option<Id>)
    requires
        0 <= i < s.len(),
        s[i] is None,
        v is Some,
    ensures
        unlabeled_count(s.update(i, v)) + 1 == unlabeled_count(s),
    decreases s.len(),
{
    let t = s.update(i, v);
    if i == s.len() - 1 {
        assert(t.drop_last() =~= s.drop_last());
    } else {
        assert(t.drop_last() =~= s.drop_last().update(i, v));
        lemma_unlabeled_count_label(s.drop_last(), i, v);
    }
}

proof fn lemma_push_contains(s: Seq<usize>, x: usize, y: usize)
    ensures
        s.push(x).contains(y) == (s.contains(y) || y == x),
{
    if s.push(x).contains(y) {
        let k = choose|k: int| 0 <= k < s.len() + 1 && s.push(x)[k] == y;
        if k < s.len() {
            assert(s[k] == y);
        }
    }
    if s.contains(y) {
        let k = choose|k: int| 0 <= k < s.len() && s[k] == y;
        assert(s.push(x)[k] == y);
    }
    if y == x {
        assert(s.push(x)[s.len() as int] == y);
    }
}

impl Graph {
    proof fn lemma_same_shape(&self, other: &Graph)
        requires
            self.wf(),
            other.adjacency@ == self.adjacency@,
            other.labels@.len() == self.labels@.len(),
        ensures
            other.wf(),
            other.same_edges(self),
    {
        assert forall|i: int, j: int| #[trigger] other.edge(i, j) implies other.edge(j, i) by {
            assert(self.edge(i, j));
        }
    }

    /// The label of each node, by handle.
    pub closed spec fn labels(&self) -> Seq<Option<Id>> {
        self.labels@
    }

    pub open spec fn len(&self) -> nat {
        self.labels().len()
    }

    /// There is an edge from node `i` to node `j`.
    pub closed spec fn edge(&self, i: int, j: int) -> bool {
        0 <= i < self.adjacency@.len() && 0 <= j < self.adjacency@.len()
            && self.adjacency@[i]@.contains(j as usize)
    }

    /// Adjacency lists match the node set and every edge goes both ways.
    pub closed spec fn wf(&self) -> bool {
        &&& self.adjacency@.len() == self.labels@.len()
        &&& forall|i: int, k: int|
            0 <= i < self.adjacency@.len() && 0 <= k < self.adjacency@[i]@.len()
                ==> #[trigger] self.adjacency@[i]@[k] < self.adjacency@.len()
        &&& forall|i: int, j: int| #[trigger] self.edge(i, j) ==> self.edge(j, i)
    }

    pub open spec fn same_edges(&self, other: &Graph) -> bool {
        &&& self.len() == other.len()
        &&& forall|i: int, j: int| #[trigger] self.edge(i, j) == other.edge(i, j)
    }

    /// Every neighbour of a labeled node carries the same label: the labeled
    /// nodes form whole, uniformly labeled components.
    pub open spec fn settled(&self) -> bool {
        forall|i: int, j: int|
            #[trigger] self.edge(i, j) && self.labels()[i] is Some ==> self.labels()[j]
                == self.labels()[i]
    }

    /// The two ends of every edge carry the same label.
    pub open spec fn uniform(&self) -> bool {
        forall|i: int, j: int| #[trigger] self.edge(i, j) ==> self.labels()[i] == self.labels()[j]
    }

    /// Every node carries an identifier.
    pub open spec fn complete(&self) -> bool {
        forall|i: int| 0 <= i < self.len() ==> (#[trigger] self.labels()[i]) is Some
    }

    /// `p` is a walk along edges.
    pub open spec fn is_path(&self, p: Seq<int>) -> bool {
        &&& p.len() > 0
        &&& forall|k: int| 0 <= k < p.len() - 1 ==> #[trigger] self.edge(p[k], p[k + 1])
    }

    /// Nodes `a` and `b` lie in one connected component.
    pub open spec fn connected(&self, a: int, b: int) -> bool {
        exists|p: Seq<int>| #[trigger] self.is_path(p) && p[0] == a && p.last() == b
    }

    /// Labels of nodes that were unlabeled in `before` only went from none to
    /// some identifier; labeled nodes kept theirs.
    pub open spec fn only_filled(before: Seq<Option<Id>>, after: Seq<Option<Id>>) -> bool {
        &&& after.len() == before.len()
        &&& forall|i: int| 0 <= i < before.len() && (#[trigger] before[i]) is Some ==> after[i] == before[i]
    }

    /// What a successful fresh assignment from `start` leaves: every node
    /// labeled, earlier labels kept, minted identifiers at least `start`, and
    /// minted identifiers first appearing in node-creation order.
    pub open spec fn assigned(before: Seq<Option<Id>>, after: Seq<Option<Id>>, start: u64) -> bool {
        &&& Self::minted(before, after, start)
        &&& forall|i: int| 0 <= i < after.len() ==> (#[trigger] after[i]) is Some
    }

    /// Some node unlabeled in `before` carries identifier `x` in `after`.
    pub open spec fn is_minted(before: Seq<Option<Id>>, after: Seq<Option<Id>>, x: int) -> bool {
        exists|c: int| 0 <= c < before.len() && before[c] is None && (#[trigger] after[c]) is Some && after[c]->Some_0@ == x
    }

    /// The identifiers minted into `after` are exactly `start` up to `m`, excluded.
    pub open spec fn minted_below(before: Seq<Option<Id>>, after: Seq<Option<Id>>, start: u64, m: int) -> bool {
        &&& start <= m
        &&& forall|i: int|
            0 <= i < before.len() && before[i] is None && (#[trigger] after[i]) is Some ==> start <= after[i]->Some_0@ < m
        &&& forall|x: int| start <= x < m ==> #[trigger] Self::is_minted(before, after, x)
    }

    /// What fresh assignment from `start` leaves, whether or not it finishes:
    /// earlier labels kept; the minted identifiers are exactly `start`,
    /// `start + 1`, ... up to some bound; and they first appear in
    /// node-creation order.
    pub open spec fn minted(before: Seq<Option<Id>>, after: Seq<Option<Id>>, start: u64) -> bool {
        &&& Self::only_filled(before, after)
        &&& exists|m: int| #[trigger] Self::minted_below(before, after, start, m)
        &&& forall|a: int, b: int|
            0 <= a < before.len() && 0 <= b < before.len() && before[a] is None && before[b] is None && after[a] is Some
                && after[b] is Some && (#[trigger] after[a])->Some_0@ < (#[trigger] after[b])->Some_0@ ==> exists|c: int|
                0 <= c < b && before[c] is None && #[trigger] after[c] == after[a]
    }

    /// After a fresh assignment whose minted labels spread along edges from
    /// nodes that were unlabeled, a path from such a node ends at a node that
    /// was unlabeled too, where every earlier label is below `start`.
    proof fn lemma_partly_labeled(g: &Graph, pre: Seq<Option<Id>>, s: Seq<Option<Id>>, start: u64, p: Seq<int>, k: int)
        requires
            g.wf(),
            g.labels() == pre,
            g.is_path(p),
            0 <= k < p.len(),
            0 <= p[0] < pre.len(),
            pre[p[0]] is None,
            s[p[0]] is Some,
            start <= s[p[0]]->Some_0@,
            pre[p[k]] is None,
            s[p[k]] == s[p[0]],
            Self::only_filled(pre, s),
            forall|c: int| 0 <= c < pre.len() && (#[trigger] pre[c]) is Some ==> pre[c]->Some_0@ < start,
            forall|x: int, y: int| #[trigger] g.edge(x, y) && pre[x] is None && s[x] is Some ==> s[y] == s[x],
            forall|c: int| 0 <= c < pre.len() ==> (#[trigger] s[c]) is Some,
        ensures
            pre[p.last()] is None,
        decreases p.len() - k,
    {
        if k == p.len() - 1 {
            return;
        }
        assert(g.edge(p[k], p[k + 1]));
        assert(0 <= p[k] < pre.len()) by {
            assert(0 <= p[k] < g.adjacency@.len());
        }
        assert(s[p[k + 1]] == s[p[k]]);
        assert(0 <= p[k + 1] < pre.len()) by {
            assert(0 <= p[k + 1] < g.adjacency@.len());
        }
        if pre[p[k + 1]] is Some {
            assert(s[p[k + 1]] == pre[p[k + 1]]);
        } else {
            Self::lemma_partly_labeled(g, pre, s, start, p, k + 1);
        }
    }

    proof fn lemma_minted_from_inv(pre: Seq<Option<Id>>, s: Seq<Option<Id>>, start: u64, cur: u64)
        requires
            Self::only_filled(pre, s),
            start <= cur,
            forall|c: int|
                0 <= c < pre.len() && pre[c] is None && (#[trigger] s[c]) is Some ==> start <= s[c]->Some_0@ < cur,
            forall|x: int| start <= x < cur ==> #[trigger] Self::is_minted(pre, s, x),
            forall|a: int, b: int|
                0 <= a < pre.len() && 0 <= b < pre.len() && pre[a] is None && pre[b] is None && s[a] is Some && s[b] is Some
                    && (#[trigger] s[a])->Some_0@ < (#[trigger] s[b])->Some_0@ ==> Self::seen_before(s, pre, s[a], b),
        ensures
            Self::minted(pre, s, start),
    {
        reveal(Graph::seen_before);
        assert(Self::minted_below(pre, s, start, cur as int));
    }

    pub fn new() -> (r: Graph)
        ensures
            r.wf(),
            r.len() == 0,
            forall|i: int, j: int| !#[trigger] r.edge(i, j),
    {
        Graph { labels: Vec::new(), adjacency: Vec::new() }
    }

    pub fn node_count(&self) -> (r: usize)
        ensures
            r == self.len(),
    {
        self.labels.len()
    }

    /// Adds an unlabeled node with no edges; its handle is the next index.
    pub fn add_node(&mut self) -> (r: Ix)
        requires
            old(self).wf(),
        ensures
            final(self).wf(),
            r.0 == old(self).len(),
            final(self).labels() == old(self).labels().push(None),
            forall|i: int, j: int| #[trigger] final(self).edge(i, j) == old(self).edge(i, j),
    {
        let r = self.labels.len();
        self.labels.push(None);
        self.adjacency.push(Vec::new());
        assert forall|i: int, j: int| #[trigger] self.edge(i, j) implies old(self).edge(i, j) by {
            if i == r as int {
                assert(self.adjacency@[i]@.len() == 0);
            } else {
                assert(self.adjacency@[i] == old(self).adjacency@[i]);
            }
        }
        assert forall|i: int, j: int| #[trigger] old(self).edge(i, j) implies self.edge(i, j) by {
            assert(self.adjacency@[i] == old(self).adjacency@[i]);
        }
        Ix(r)
    }

    /// Adds an undirected edge between two nodes; labels are untouched.
    pub fn add_edge(&mut self, a: Ix, b: Ix)
        requires
            old(self).wf(),
            a.0 < old(self).len(),
            b.0 < old(self).len(),
        ensures
            final(self).wf(),
            final(self).labels() == old(self).labels(),
            forall|i: int, j: int|
                #[trigger] final(self).edge(i, j) == (old(self).edge(i, j) || (i == a.0 && j == b.0)
                    || (i == b.0 && j == a.0)),
    {
        let ghost adj0 = self.adjacency@;
        let n = self.adjacency.len();
        self.adjacency[a.0].push(b.0);
        self.adjacency[b.0].push(a.0);
        assert forall|i: int, j: int| #[trigger]
            self.edge(i, j) == (old(self).edge(i, j) || (i == a.0 && j == b.0) || (i == b.0 && j
                == a.0)) by {
            assert(self.adjacency@.len() == adj0.len() && adj0.len() == n);
            if 0 <= i < adj0.len() && 0 <= j < adj0.len() {
                if i == a.0 && i == b.0 {
                    assert(self.adjacency@[i]@ == adj0[i]@.push(b.0).push(a.0));
                    lemma_push_contains(adj0[i]@, b.0, j as usize);
                    lemma_push_contains(adj0[i]@.push(b.0), a.0, j as usize);
                } else if i == a.0 {
                    assert(self.adjacency@[i]@ == adj0[i]@.push(b.0));
                    lemma_push_contains(adj0[i]@, b.0, j as usize);
                } else if i == b.0 {
                    assert(self.adjacency@[i]@ == adj0[i]@.push(a.0));
                    lemma_push_contains(adj0[i]@, a.0, j as usize);
                } else {
                    assert(self.adjacency@[i] == adj0[i]);
                }
            }
        }
        assert forall|i: int, k: int|
            0 <= i < self.adjacency@.len() && 0 <= k < self.adjacency@[i]@.len()
                implies #[trigger] self.adjacency@[i]@[k] < self.adjacency@.len() by {
            if i != a.0 && i != b.0 {
                assert(self.adjacency@[i] == adj0[i]);
            } else if k < adj0[i]@.len() {
                assert(self.adjacency@[i]@[k] == adj0[i]@[k]);
            }
        }
        assert forall|i: int, j: int| #[trigger] self.edge(i, j) implies self.edge(j, i) by {
            if old(self).edge(i, j) {
                assert(old(self).edge(j, i));
            }
        }
    }

    /// The label of a node, if it has one.
    pub fn label(&self, key: Ix) -> (r: Option<Id>)
        requires
            key.0 < self.len(),
        ensures
            r == self.labels()[key.0 as int],
    {
        self.labels[key.0]
    }

    /// The identifier of a labeled node.
    pub fn get(&self, key: Ix) -> (r: Id)
        requires
            key.0 < self.len(),
            self.labels()[key.0 as int] is Some,
        ensures
            self.labels()[key.0 as int] == Some(r),
    {
        self.labels[key.0].unwrap()
    }

    /// Labels with `id` every node reachable from the unlabeled `root`
    /// through unlabeled nodes. Stops with the label found where a node
    /// carrying another identifier is reached.
    fn flood(&mut self, root: usize, id: Id) -> (r: Result<(), Id>)
        requires
            old(self).wf(),
            root < old(self).len(),
            old(self).labels()[root as int] is None,
        ensures
            final(self).adjacency@ == old(self).adjacency@,
            Self::only_filled(old(self).labels(), final(self).labels()),
            forall|i: int|
                0 <= i < old(self).len() && #[trigger] final(self).labels()[i] != old(self).labels()[i]
                    ==> final(self).labels()[i] == Some(id),
            final(self).labels()[root as int] == Some(id),
            r is Ok ==> forall|i: int, j: int|
                #[trigger] final(self).edge(i, j) && old(self).labels()[i] is None
                    && final(self).labels()[i] == Some(id) ==> final(self).labels()[j] == Some(id),
            r is Err ==> !old(self).settled(),
            r is Err ==> exists|u: int, v: int|
                #[trigger] old(self).edge(u, v) && old(self).labels()[u] is None && old(self).labels()[v] is Some
                    && old(self).labels()[v] != Some(id),
            forall|i: int|
                0 <= i < old(self).len() && #[trigger] final(self).labels()[i] != old(self).labels()[i]
                    ==> old(self).connected(root as int, i),
    {
        let ghost pre = self.labels@;
        let n = self.labels.len();
        proof {
            lemma_unlabeled_count_label(pre, root as int, Some(id));
        }
        self.labels.set(root, Some(id));
        let mut queue: Vec<usize> = Vec::new();
        queue.push(root);
        proof {
            lemma_connected_refl(old(self), root as int);
            assert(queue@[0] == root);
        }
        assert forall|i: int|
            0 <= i < n && pre[i] is None && #[trigger] self.labels@[i] == Some(id)
                implies queue@.contains(i as usize) by {
            if i != root as int {
                assert(self.labels@[i] == pre[i]);
            }
            assert(queue@[0] == root);
        }
        let mut head: usize = 0;
        while head < queue.len()
            invariant
                self.adjacency@ == old(self).adjacency@,
                old(self).labels@ == pre,
                old(self).wf(),
                n == pre.len(),
                root < n,
                self.labels@.len() == n,
                head <= queue.len(),
                unlabeled_count(self.labels@) + queue.len() == unlabeled_count(pre),
                self.labels@[root as int] == Some(id),
                forall|p: int|
                    0 <= p < queue.len() ==> #[trigger] queue@[p] < n && pre[queue@[p] as int] is None
                        && self.labels@[queue@[p] as int] == Some(id),
                forall|p: int| 0 <= p < queue.len() ==> old(self).connected(root as int, #[trigger] queue@[p] as int),
                forall|i: int|
                    0 <= i < n && #[trigger] self.labels@[i] != pre[i] ==> pre[i] is None
                        && self.labels@[i] == Some(id),
                forall|i: int|
                    0 <= i < n && pre[i] is None && #[trigger] self.labels@[i] == Some(id)
                        ==> queue@.contains(i as usize),
                forall|p: int, j: int|
                    0 <= p < head && #[trigger] old(self).edge(queue@[p] as int, j) ==> self.labels@[j]
                        == Some(id),
            decreases (queue.len() - head) + unlabeled_count(self.labels@),
        {
            let u = queue[head];
            let deg = self.adjacency[u].len();
            let mut k: usize = 0;
            while k < deg
                invariant
                    self.adjacency@ == old(self).adjacency@,
                    old(self).labels@ == pre,
                    old(self).wf(),
                    n == pre.len(),
                    root < n,
                    self.labels@.len() == n,
                    head < queue.len(),
                    u == queue@[head as int],
                    deg == self.adjacency@[u as int]@.len(),
                    k <= deg,
                    unlabeled_count(self.labels@) + queue.len() == unlabeled_count(pre),
                    self.labels@[root as int] == Some(id),
                    forall|p: int|
                        0 <= p < queue.len() ==> #[trigger] queue@[p] < n && pre[queue@[p] as int] is None
                            && self.labels@[queue@[p] as int] == Some(id),
                    forall|p: int| 0 <= p < queue.len() ==> old(self).connected(root as int, #[trigger] queue@[p] as int),
                    forall|i: int|
                        0 <= i < n && #[trigger] self.labels@[i] != pre[i] ==> pre[i] is None
                            && self.labels@[i] == Some(id),
                    forall|i: int|
                        0 <= i < n && pre[i] is None && #[trigger] self.labels@[i] == Some(id)
                            ==> queue@.contains(i as usize),
                    forall|p: int, j: int|
                        0 <= p < head && #[trigger] old(self).edge(queue@[p] as int, j) ==> self.labels@[j]
                            == Some(id),
                    forall|kk: int|
                        0 <= kk < k ==> self.labels@[#[trigger] self.adjacency@[u as int]@[kk] as int]
                            == Some(id),
                decreases deg - k,
            {
                let v = self.adjacency[u][k];
                assert(v < n) by {
                    assert(old(self).adjacency@[u as int]@[k as int] < n);
                }
                match self.labels[v] {
                    None => {
                        let ghost before = self.labels@;
                        let ghost q0 = queue@;
                        proof {
                            lemma_unlabeled_count_label(before, v as int, Some(id));
                        }
                        assert(v != root);
                        self.labels.set(v, Some(id));
                        queue.push(v);
                        assert forall|p: int, j: int|
                            0 <= p < head && #[trigger] old(self).edge(queue@[p] as int, j) implies self.labels@[j]
                                == Some(id) by {
                            assert(queue@[p] == q0[p]);
                            if j != v as int {
                                assert(self.labels@[j] == before[j]);
                            }
                        }
                        assert forall|i: int|
                            0 <= i < n && pre[i] is None && #[trigger] self.labels@[i] == Some(id)
                                implies queue@.contains(i as usize) by {
                            if i == v as int {
                                assert(queue@[q0.len() as int] == v);
                            } else {
                                assert(before[i] == self.labels@[i]);
                                let p = choose|p: int| 0 <= p < q0.len() && q0[p] == i as usize;
                                assert(queue@[p] == i as usize);
                            }
                        }
                        assert forall|p: int|
                            0 <= p < queue.len() implies #[trigger] queue@[p] < n && pre[queue@[p] as int] is None
                                && self.labels@[queue@[p] as int] == Some(id) by {
                            if p < q0.len() {
                                assert(queue@[p] == q0[p]);
                            }
                        }
                        proof {
                            assert(old(self).adjacency@[u as int]@[k as int] == v);
                            assert(old(self).edge(u as int, v as int));
                            assert(old(self).connected(root as int, q0[head as int] as int));
                            lemma_connected_step(old(self), root as int, u as int, v as int);
                            assert forall|p: int| 0 <= p < queue.len() implies old(self).connected(
                                root as int,
                                #[trigger] queue@[p] as int,
                            ) by {
                                if p < q0.len() {
                                    assert(queue@[p] == q0[p]);
                                }
                            }
                        }
                    },
                    Some(x) => {
                        if x != id {
                            proof {
                                assert(self.labels@[v as int] == pre[v as int]);
                                assert(old(self).adjacency@[u as int]@.contains(v));
                                assert(old(self).edge(u as int, v as int));
                                assert(old(self).edge(v as int, u as int));
                                assert forall|i: int|
                                    0 <= i < n && #[trigger] self.labels@[i] != pre[i] implies old(self).connected(
                                        root as int,
                                        i,
                                    ) by {
                                    assert(queue@.contains(i as usize));
                                    let p = choose|p: int| 0 <= p < queue.len() && queue@[p] == i as usize;
                                    assert(old(self).connected(root as int, queue@[p] as int));
                                }
                            }
                            return Err(x);
                        }
                    },
                }
                k = k + 1;
            }
            assert forall|p: int, j: int|
                0 <= p < head + 1 && #[trigger] old(self).edge(queue@[p] as int, j) implies self.labels@[j]
                    == Some(id) by {
                if p == head as int {
                    let kk = choose|kk: int|
                        0 <= kk < self.adjacency@[u as int]@.len() && self.adjacency@[u as int]@[kk]
                            == j as usize;
                    assert(self.labels@[self.adjacency@[u as int]@[kk] as int] == Some(id));
                }
            }
            head = head + 1;
        }
        assert forall|i: int|
            0 <= i < n && #[trigger] self.labels@[i] != pre[i] implies old(self).connected(root as int, i) by {
            assert(queue@.contains(i as usize));
            let p = choose|p: int| 0 <= p < queue.len() && queue@[p] == i as usize;
            assert(old(self).connected(root as int, queue@[p] as int));
        }
        assert forall|i: int, j: int|
            #[trigger] self.edge(i, j) && pre[i] is None && self.labels@[i] == Some(id)
                implies self.labels@[j] == Some(id) by {
            assert(old(self).edge(i, j));
            assert(queue@.contains(i as usize));
            let p = choose|p: int| 0 <= p < queue.len() && queue@[p] == i as usize;
            assert(old(self).edge(queue@[p] as int, j));
        }
        Ok(())
    }

    /// A flood from the unlabeled `root` of a settled graph reaches its whole component.
    proof fn lemma_flood_covers(before: &Graph, after: &Graph, root: int, id: Id, p: Seq<int>, k: int)
        requires
            before.wf(),
            before.settled(),
            before.labels()[root] is None,
            after.labels()[root] == Some(id),
            forall|i: int, j: int| #[trigger] after.edge(i, j) == before.edge(i, j),
            forall|i: int, j: int|
                #[trigger] after.edge(i, j) && before.labels()[i] is None && after.labels()[i] == Some(id)
                    ==> after.labels()[j] == Some(id),
            before.is_path(p),
            p[0] == root,
            0 <= k < p.len(),
        ensures
            after.labels()[p[k]] == Some(id),
            before.labels()[p[k]] is None,
        decreases k,
    {
        if k > 0 {
            Self::lemma_flood_covers(before, after, root, id, p, k - 1);
            let j = k - 1;
            assert(before.edge(p[j], p[j + 1]));
            assert(after.edge(p[j], p[j + 1]));
            if before.labels()[p[k]] is Some {
                assert(before.edge(p[k], p[j]));
            }
        }
    }

    /// Seeds identifier `id` at node `root` and its whole component.
    ///
    /// A node already carrying `id` leaves the graph as it is; one carrying
    /// another identifier is a conflict, reported with that identifier.
    pub fn seed(&mut self, root: Ix, id: Id) -> (r: Result<(), Id>)
        requires
            old(self).wf(),
            root.0 < old(self).len(),
        ensures
            final(self).wf(),
            final(self).same_edges(old(self)),
            Self::only_filled(old(self).labels(), final(self).labels()),
            forall|i: int|
                0 <= i < old(self).len() && #[trigger] final(self).labels()[i] != old(self).labels()[i]
                    ==> final(self).labels()[i] == Some(id),
            r is Ok ==> final(self).labels()[root.0 as int] == Some(id),
            old(self).labels()[root.0 as int] == Some(id) ==> r is Ok && final(self).labels()
                == old(self).labels(),
            old(self).labels()[root.0 as int] is Some && old(self).labels()[root.0 as int] != Some(id)
                ==> r == Err::<(), Id>(old(self).labels()[root.0 as int]->Some_0)
                && final(self).labels() == old(self).labels(),
            old(self).settled() ==> (r is Ok <==> (old(self).labels()[root.0 as int] is None
                || old(self).labels()[root.0 as int] == Some(id))),
            old(self).settled() ==> final(self).settled(),
            forall|i: int|
                0 <= i < old(self).len() && #[trigger] final(self).labels()[i] != old(self).labels()[i]
                    ==> old(self).connected(root.0 as int, i),
            old(self).settled() && (old(self).labels()[root.0 as int] is None || old(self).labels()[root.0 as int]
                == Some(id)) ==> final(self).labels() == seeded_labels(old(self), old(self).labels(), root.0 as int, id),
    {
        match self.labels[root.0] {
            Some(x) => {
                if x == id {
                    Ok(())
                } else {
                    Err(x)
                }
            },
            None => {
                let r = self.flood(root.0, id);
                assert(self.same_edges(old(self)));
                proof {
                    if old(self).settled() {
                        let want = seeded_labels(old(self), old(self).labels(), root.0 as int, id);
                        assert forall|i: int| 0 <= i < self.labels@.len() implies #[trigger] self.labels@[i] == want[i] by {
                            if old(self).connected(root.0 as int, i) {
                                let p = choose|p: Seq<int>|
                                    #[trigger] old(self).is_path(p) && p[0] == root.0 as int && p.last() == i;
                                Self::lemma_flood_covers(old(self), self, root.0 as int, id, p, p.len() - 1);
                            }
                        }
                        assert(self.labels@ =~= want);
                    }
                    if r is Ok && old(self).settled() {
                        assert forall|i: int, j: int|
                            #[trigger] self.edge(i, j) && self.labels()[i] is Some implies self.labels()[j]
                                == self.labels()[i] by {
                            assert(old(self).edge(i, j));
                        }
                    }
                }
                r
            },
        }
    }

    /// One step of fresh assignment keeps the labelling, range and closure
    /// parts of the loop's invariant: `s0` is the labelling before node `i`
    /// mints `id`, `s1` the one after its flood.
    proof fn lemma_assign_step_closed(
        g: Graph,
        pre: Seq<Option<Id>>,
        s0: Seq<Option<Id>>,
        s1: Seq<Option<Id>>,
        i: int,
        id: Id,
        start: u64,
    )
        requires
            pre.len() == s0.len(),
            g.adjacency@.len() == s0.len(),
            0 <= i < s0.len(),
            start <= id@,
            Self::only_filled(pre, s0),
            Self::only_filled(s0, s1),
            forall|c: int|
                0 <= c < s0.len() && #[trigger] s1[c] != s0[c] ==> s1[c] == Some(id),
            s1[i] == Some(id),
            forall|x: int, y: int|
                #[trigger] g.edge(x, y) && s0[x] is None && s1[x] == Some(id) ==> s1[y] == Some(id),
            forall|c: int| 0 <= c < i ==> (#[trigger] s0[c]) is Some,
            forall|c: int|
                0 <= c < s0.len() && pre[c] is None && (#[trigger] s0[c]) is Some ==> start
                    <= s0[c]->Some_0@ < id@,
            forall|a: int, b: int|
                #[trigger] g.edge(a, b) && pre[a] is None && s0[a] is Some ==> s0[b] == s0[a],
        ensures
            Self::only_filled(pre, s1),
            forall|c: int| 0 <= c < i + 1 ==> (#[trigger] s1[c]) is Some,
            forall|c: int|
                0 <= c < s0.len() && pre[c] is None && (#[trigger] s1[c]) is Some ==> start
                    <= s1[c]->Some_0@ < id@ + 1,
            forall|a: int, b: int|
                #[trigger] g.edge(a, b) && pre[a] is None && s1[a] is Some ==> s1[b] == s1[a],
    {
        let n = s0.len();
        assert forall|c: int| 0 <= c < n && (#[trigger] pre[c]) is Some implies s1[c] == pre[c] by {
            assert(s0[c] == pre[c]);
        }
        assert forall|c: int| 0 <= c < i + 1 implies (#[trigger] s1[c]) is Some by {
            if c < i {
                assert(s0[c] is Some);
            }
        }
        assert forall|c: int|
            0 <= c < n && pre[c] is None && (#[trigger] s1[c]) is Some implies start <= s1[c]->Some_0@
                < id@ + 1 by {
            if s0[c] is Some {
                assert(s1[c] == s0[c]);
            } else {
                assert(s1[c] != s0[c]);
            }
        }
        assert forall|a: int, b: int|
            #[trigger] g.edge(a, b) && pre[a] is None && s1[a] is Some implies s1[b] == s1[a] by {
            if s0[a] is Some {
                assert(s0[b] == s0[a]);
                assert(s1[b] == s0[b]);
            } else {
                assert(s1[a] != s0[a]);
                assert(s1[b] == Some(id));
            }
        }
    }

    /// Label `x` is carried by a node before `b` that `pre` left unlabeled.
    #[verifier::opaque]
    pub open spec fn seen_before(s: Seq<Option<Id>>, pre: Seq<Option<Id>>, x: Option<Id>, b: int) -> bool {
        exists|c: int| 0 <= c < b && pre[c] is None && #[trigger] s[c] == x
    }

    proof fn lemma_seen_before_grows(s: Seq<Option<Id>>, pre: Seq<Option<Id>>, x: Option<Id>, b: int)
        requires
            Self::seen_before(s, pre, x, b),
        ensures
            Self::seen_before(s, pre, x, b + 1),
    {
        reveal(Graph::seen_before);
        let c = choose|c: int| 0 <= c < b && pre[c] is None && #[trigger] s[c] == x;
        assert(0 <= c < b + 1 && pre[c] is None && s[c] == x);
    }

    /// One step of fresh assignment keeps every minted identifier carried by
    /// a node already passed.
    proof fn lemma_assign_step_witness(
        pre: Seq<Option<Id>>,
        s0: Seq<Option<Id>>,
        s1: Seq<Option<Id>>,
        i: int,
        id: Id,
    )
        requires
            pre.len() == s0.len(),
            0 <= i < s0.len(),
            Self::only_filled(s0, s1),
            forall|c: int|
                0 <= c < s0.len() && #[trigger] s1[c] != s0[c] ==> s1[c] == Some(id),
            s1[i] == Some(id),
            pre[i] is None,
            forall|a: int|
                0 <= a < s0.len() && pre[a] is None && (#[trigger] s0[a]) is Some ==> Self::seen_before(s0, pre, s0[a], i),
        ensures
            forall|a: int|
                0 <= a < s0.len() && pre[a] is None && (#[trigger] s1[a]) is Some ==> Self::seen_before(s1, pre, s1[a], i + 1),
    {
        reveal(Graph::seen_before);
        assert forall|a: int|
            0 <= a < s0.len() && pre[a] is None && (#[trigger] s1[a]) is Some implies Self::seen_before(s1, pre, s1[a], i + 1) by {
            if s0[a] is Some {
                let c = choose|c: int| 0 <= c < i && pre[c] is None && #[trigger] s0[c] == s0[a];
                assert(s1[c] == s0[c]);
                assert(s1[a] == s0[a]);
            } else {
                assert(s1[a] != s0[a]);
                assert(s1[i] == s1[a]);
            }
        }
    }

    /// One step of fresh assignment keeps minted identifiers first appearing
    /// in creation order.
    proof fn lemma_assign_step_order(
        pre: Seq<Option<Id>>,
        s0: Seq<Option<Id>>,
        s1: Seq<Option<Id>>,
        i: int,
        id: Id,
    )
        requires
            pre.len() == s0.len(),
            0 <= i < s0.len(),
            Self::only_filled(s0, s1),
            forall|c: int|
                0 <= c < s0.len() && #[trigger] s1[c] != s0[c] ==> s1[c] == Some(id),
            forall|c: int| 0 <= c < i ==> (#[trigger] s0[c]) is Some,
            forall|c: int|
                0 <= c < s0.len() && pre[c] is None && (#[trigger] s0[c]) is Some ==> s0[c]->Some_0@
                    < id@,
            forall|a: int|
                0 <= a < s0.len() && pre[a] is None && (#[trigger] s0[a]) is Some ==> Self::seen_before(s0, pre, s0[a], i),
            forall|a: int, b: int|
                0 <= a < s0.len() && 0 <= b < s0.len() && pre[a] is None && pre[b] is None && s0[a] is Some
                    && s0[b] is Some && (#[trigger] s0[a])->Some_0@ < (#[trigger] s0[b])->Some_0@
                    ==> Self::seen_before(s0, pre, s0[a], b),
        ensures
            forall|a: int, b: int|
                0 <= a < s0.len() && 0 <= b < s0.len() && pre[a] is None && pre[b] is None && s1[a] is Some
                    && s1[b] is Some && (#[trigger] s1[a])->Some_0@ < (#[trigger] s1[b])->Some_0@
                    ==> Self::seen_before(s1, pre, s1[a], b),
    {
        reveal(Graph::seen_before);
        assert forall|a: int, b: int|
            0 <= a < s0.len() && 0 <= b < s0.len() && pre[a] is None && pre[b] is None && s1[a] is Some
                && s1[b] is Some && (#[trigger] s1[a])->Some_0@ < (#[trigger] s1[b])->Some_0@ implies Self::seen_before(s1, pre, s1[a], b) by {
            if s0[a] is Some {
                assert(s1[a] == s0[a]);
                if s0[b] is Some {
                    assert(s1[b] == s0[b]);
                    let c = choose|c: int| 0 <= c < b && pre[c] is None && #[trigger] s0[c] == s0[a];
                    assert(s1[c] == s0[c]);
                } else {
                    assert(s1[b] != s0[b]);
                    assert(b >= i) by {
                        if b < i {
                            assert(s0[b] is Some);
                        }
                    }
                    let c = choose|c: int| 0 <= c < i && pre[c] is None && #[trigger] s0[c] == s0[a];
                    assert(s1[c] == s0[c]);
                }
            } else {
                assert(s1[a] != s0[a]);
                if s0[b] is Some {
                    assert(s1[b] == s0[b]);
                } else {
                    assert(s1[b] != s0[b]);
                }
            }
        }
    }

    /// Gives every unlabeled node an identifier. Nodes are taken in creation
    /// order; each one still unlabeled mints the next identifier, starting at
    /// `initial_id`, and that identifier labels its whole component.
    pub fn assign_all_ids(&mut self, initial_id: Id) -> (r: Result<(), AssignError>)
        requires
            old(self).wf(),
        ensures
            final(self).wf(),
            final(self).same_edges(old(self)),
            Self::minted(old(self).labels(), final(self).labels(), initial_id@),
            forall|a: int, b: int|
                0 <= a < old(self).len() && 0 <= b < old(self).len() && old(self).labels()[a] is None
                    && old(self).labels()[b] is None && final(self).labels()[a] is Some
                    && #[trigger] final(self).labels()[a] == #[trigger] final(self).labels()[b] ==> old(self).connected(a, b),
            r is Ok ==> Self::assigned(old(self).labels(), final(self).labels(), initial_id@),
            r is Ok ==> final(self).complete(),
            r is Ok && old(self).settled() ==> final(self).uniform(),
            r is Ok ==> forall|a: int, b: int|
                #[trigger] old(self).edge(a, b) && old(self).labels()[a] is None ==> final(self).labels()[b]
                    == final(self).labels()[a],
            (forall|c: int| 0 <= c < old(self).len() && (#[trigger] old(self).labels()[c]) is Some
                ==> old(self).labels()[c]->Some_0@ < initial_id@) && (exists|a: int, b: int|
                #[trigger] old(self).connected(a, b) && 0 <= a < old(self).len() && old(self).labels()[a] is None
                    && old(self).labels()[b] is Some) ==> r is Err,
            r == Err::<(), AssignError>(AssignError::AlreadyAssigned) ==> !old(self).settled(),
            r == Err::<(), AssignError>(AssignError::AlreadyAssigned) ==> exists|u: int, v: int|
                #[trigger] old(self).edge(u, v) && old(self).labels()[u] is None && old(self).labels()[v] is Some,
            r is Err && r->Err_0 is IdRange ==> old(self).len() + initial_id@ >= u64::MAX,
            r is Err && r->Err_0 is IdRange ==> (forall|x: int|
                initial_id@ <= x < u64::MAX - 1 ==> #[trigger] Self::is_minted(old(self).labels(), final(self).labels(), x))
                && exists|c: int| 0 <= c < old(self).len() && old(self).labels()[c] is None && final(self).labels()[c] is None,
    {
        let ghost pre = self.labels@;
        let ghost start = initial_id@;
        let n = self.labels.len();
        let mut cur = initial_id;
        let mut i: usize = 0;
        while i < n
            invariant
                self.adjacency@ == old(self).adjacency@,
                old(self).labels@ == pre,
                old(self).wf(),
                n == pre.len(),
                self.labels@.len() == n,
                i <= n,
                start == initial_id@,
                start <= cur@,
                cur@ - start <= i,
                Self::only_filled(pre, self.labels@),
                forall|c: int| 0 <= c < i ==> (#[trigger] self.labels@[c]) is Some,
                forall|c: int|
                    0 <= c < n && pre[c] is None && (#[trigger] self.labels@[c]) is Some ==> start
                        <= self.labels@[c]->Some_0@ < cur@,
                forall|a: int, b: int|
                    #[trigger] old(self).edge(a, b) && pre[a] is None && self.labels@[a] is Some
                        ==> self.labels@[b] == self.labels@[a],
                forall|a: int|
                    0 <= a < n && pre[a] is None && (#[trigger] self.labels@[a]) is Some
                        ==> Self::seen_before(self.labels@, pre, self.labels@[a], i as int),
                forall|a: int, b: int|
                    0 <= a < n && 0 <= b < n && pre[a] is None && pre[b] is None && self.labels@[a] is Some
                        && self.labels@[b] is Some && (#[trigger] self.labels@[a])->Some_0@ < (
                    #[trigger] self.labels@[b])->Some_0@ ==> Self::seen_before(self.labels@, pre, self.labels@[a], b),
                forall|x: int| start <= x < cur@ ==> #[trigger] Self::is_minted(pre, self.labels@, x),
                forall|a: int, b: int|
                    0 <= a < n && 0 <= b < n && pre[a] is None && pre[b] is None && self.labels@[a] is Some
                        && #[trigger] self.labels@[a] == #[trigger] self.labels@[b] ==> old(self).connected(a, b),
            decreases n - i,
        {
            if self.labels[i].is_none() {
                let id = cur;
                match cur.next() {
                    Ok(nx) => {
                        cur = nx;
                    },
                    Err(e) => {
                        let cv = cur.get();
                        proof {
                            old(self).lemma_same_shape(self);
                            Self::lemma_minted_from_inv(pre, self.labels@, start, cur@);
                            assert(pre[i as int] is None);
                        }
                        return Err(AssignError::IdRange(e));
                    },
                }
                let ghost s0 = self.labels@;
                proof {
                    if old(self).settled() {
                        assert forall|a: int, b: int|
                            #[trigger] self.edge(a, b) && self.labels()[a] is Some implies self.labels()[b]
                                == self.labels()[a] by {
                            assert(old(self).edge(a, b));
                            if pre[a] is Some {
                                assert(pre[b] == pre[a]);
                            }
                        }
                    }
                }
                proof {
                    old(self).lemma_same_shape(self);
                }
                let ghost gs = *self;
                let res = self.flood(i, id);
                proof {
                    old(self).lemma_same_shape(self);
                    let s1 = self.labels@;
                    assert forall|c: int| 0 <= c < n && (#[trigger] pre[c]) is Some implies s1[c] == pre[c] by {
                        assert(s0[c] == pre[c]);
                    }
                    assert forall|c: int|
                        0 <= c < n && pre[c] is None && (#[trigger] s1[c]) is Some implies start <= s1[c]->Some_0@
                            < cur@ by {
                        if s0[c] is Some {
                            assert(s1[c] == s0[c]);
                        } else {
                            assert(s1[c] != s0[c]);
                        }
                    }
                    assert(pre[i as int] is None);
                    Self::lemma_assign_step_witness(pre, s0, s1, i as int, id);
                    Self::lemma_assign_step_order(pre, s0, s1, i as int, id);
                    assert forall|x: int| start <= x < cur@ implies #[trigger] Self::is_minted(pre, s1, x) by {
                        if x < id@ {
                            assert(Self::is_minted(pre, s0, x));
                            let c = choose|c: int|
                                0 <= c < pre.len() && pre[c] is None && (#[trigger] s0[c]) is Some && s0[c]->Some_0@ == x;
                            assert(s1[c] == s0[c]);
                        } else {
                            assert(s1[i as int] == Some(id));
                        }
                    }
                    assert forall|a: int, b: int|
                        0 <= a < n && 0 <= b < n && pre[a] is None && pre[b] is None && s1[a] is Some
                            && #[trigger] s1[a] == #[trigger] s1[b] implies old(self).connected(a, b) by {
                        if s1[a] != s0[a] {
                            assert(s1[a] == Some(id));
                            if s1[b] == s0[b] {
                                assert(s0[b]->Some_0@ < id@);
                            }
                            assert(s1[b] != s0[b]);
                            lemma_connected_same_edges(&gs, old(self), i as int, a);
                            lemma_connected_same_edges(&gs, old(self), i as int, b);
                            lemma_connected_symmetric(old(self), i as int, a);
                            lemma_connected_transitive(old(self), a, i as int, b);
                        } else {
                            if s1[b] != s0[b] {
                                assert(s0[a]->Some_0@ < id@);
                            }
                            assert(s0[a] == s0[b]);
                        }
                    }
                }
                if res.is_err() {
                    proof {
                        Self::lemma_minted_from_inv(pre, self.labels@, start, cur@);
                        let (u, v) = choose|u: int, v: int|
                            #[trigger] gs.edge(u, v) && gs.labels()[u] is None && gs.labels()[v] is Some
                                && gs.labels()[v] != Some(id);
                        assert(old(self).edge(u, v));
                        if pre[v] is None {
                            assert(old(self).edge(v, u));
                            assert(s0[u] == s0[v]);
                        }
                    }
                    return Err(AssignError::AlreadyAssigned);
                }
                proof {
                    let s1 = self.labels@;
                    assert forall|x: int, y: int|
                        #[trigger] old(self).edge(x, y) && s0[x] is None && s1[x] == Some(id)
                            implies s1[y] == Some(id) by {
                        assert(self.edge(x, y));
                    }
                    Self::lemma_assign_step_closed(*old(self), pre, s0, s1, i as int, id, start);
                }
            } else {
                assert forall|a: int|
                    0 <= a < n && pre[a] is None && (#[trigger] self.labels@[a]) is Some implies Self::seen_before(
                        self.labels@,
                        pre,
                        self.labels@[a],
                        i + 1,
                    ) by {
                    Self::lemma_seen_before_grows(self.labels@, pre, self.labels@[a], i as int);
                }
            }
            i = i + 1;
        }
        proof {
            Self::lemma_minted_from_inv(pre, self.labels@, start, cur@);
            if (forall|c: int| 0 <= c < old(self).len() && (#[trigger] old(self).labels()[c]) is Some
                ==> old(self).labels()[c]->Some_0@ < initial_id@) && (exists|a: int, b: int|
                #[trigger] old(self).connected(a, b) && 0 <= a < old(self).len() && old(self).labels()[a] is None
                    && old(self).labels()[b] is Some) {
                let (a, b) = choose|a: int, b: int|
                    #[trigger] old(self).connected(a, b) && 0 <= a < old(self).len() && old(self).labels()[a] is None
                        && old(self).labels()[b] is Some;
                let p = choose|p: Seq<int>| #[trigger] old(self).is_path(p) && p[0] == a && p.last() == b;
                assert(self.labels@[a] is Some);
                Self::lemma_partly_labeled(old(self), pre, self.labels@, start, p, 0);
            }
            reveal(Graph::seen_before);
            old(self).lemma_same_shape(self);
            let s = self.labels@;
            if old(self).settled() {
                assert forall|a: int, b: int| #[trigger] self.edge(a, b) implies s[a] == s[b] by {
                    assert(old(self).edge(a, b));
                    if pre[a] is Some {
                        assert(pre[b] == pre[a]);
                    } else {
                        assert(s[a] is Some);
                    }
                }
            }
            assert forall|c: int|
                0 <= c < pre.len() && (#[trigger] pre[c]) is None implies start <= s[c]->Some_0@ by {
                assert(s[c] is Some);
            }
        }
        Ok(())
    }

    /// Adds one edge per diff entry whose two offsets both have a node; an
    /// entry naming an offset that has none is skipped. A report whose
    /// version has no location set is an error.
    pub fn add_edges(&mut self, offset_lists: &OffsetLists, diff_lists: &DiffLists) -> (r: Result<(), GraphError>)
        requires
            old(self).wf(),
            offset_lists.wf(),
            offset_lists.nodes_below(old(self).len()),
        ensures
            final(self).wf(),
            final(self).labels() == old(self).labels(),
            r is Ok <==> diff_versions_known(offset_lists, diff_lists),
            forall|i: int, j: int|
                #[trigger] final(self).edge(i, j) ==> (old(self).edge(i, j) || diff_edge(offset_lists, diff_lists, i, j)
                    || diff_edge(offset_lists, diff_lists, j, i)),
            r is Err ==> r->Err_0 is MissingOffsets && offset_lists.spec_get(r->Err_0->MissingOffsets_0) is None,
            r is Ok ==> forall|i: int, j: int|
                #[trigger] final(self).edge(i, j) <==> (old(self).edge(i, j) || diff_edge(offset_lists, diff_lists, i, j)
                    || diff_edge(offset_lists, diff_lists, j, i)),
    {
        let lists = diff_lists.iter();
        let n = self.labels.len();
        let mut l: usize = 0;
        while l < lists.len()
            invariant
                self.wf(),
                offset_lists.wf(),
                offset_lists.nodes_below(n as nat),
                n == old(self).len(),
                self.labels() == old(self).labels(),
                lists@ == diff_lists.lists(),
                l <= lists.len(),
                forall|x: int|
                    0 <= x < l ==> offset_lists.spec_get((#[trigger] lists@[x]).left) is Some
                        && offset_lists.spec_get(lists@[x].right) is Some,
                forall|i: int, j: int|
                    #[trigger] self.edge(i, j) ==> (old(self).edge(i, j) || diff_edge(offset_lists, diff_lists, i, j)
                        || diff_edge(offset_lists, diff_lists, j, i)),
                forall|x: int, k: int, i: int, j: int|
                    x < l && #[trigger] diff_joins(offset_lists, diff_lists, x, k, i, j) ==> self.edge(i, j) && self.edge(j, i),
                forall|i: int, j: int| #[trigger] old(self).edge(i, j) ==> self.edge(i, j),
            decreases lists.len() - l,
        {
            let dl = &lists[l];
            let left = match offset_lists.get(dl.left) {
                Some(x) => x,
                None => {
                    proof {
                        self.lemma_same_shape(self);
                    }
                    return Err(GraphError::MissingOffsets(dl.left));
                },
            };
            let right = match offset_lists.get(dl.right) {
                Some(x) => x,
                None => {
                    return Err(GraphError::MissingOffsets(dl.right));
                },
            };
            let diffs = dl.iter();
            let mut k: usize = 0;
            while k < diffs.len()
                invariant
                    self.wf(),
                    offset_lists.wf(),
                    offset_lists.nodes_below(n as nat),
                    n == old(self).len(),
                    self.labels() == old(self).labels(),
                    lists@ == diff_lists.lists(),
                    l < lists.len(),
                    *dl == lists@[l as int],
                    diffs@ == dl.diffs@,
                    offset_lists.spec_get(dl.left) == Some(*left),
                    offset_lists.spec_get(dl.right) == Some(*right),
                    left.wf(),
                    right.wf(),
                    left.nodes_below(n as nat),
                    right.nodes_below(n as nat),
                    k <= diffs.len(),
                    forall|x: int|
                        0 <= x < l ==> offset_lists.spec_get((#[trigger] lists@[x]).left) is Some
                            && offset_lists.spec_get(lists@[x].right) is Some,
                    forall|i: int, j: int|
                        #[trigger] self.edge(i, j) ==> (old(self).edge(i, j) || diff_edge(offset_lists, diff_lists, i, j)
                            || diff_edge(offset_lists, diff_lists, j, i)),
                    forall|x: int, kk: int, i: int, j: int|
                        (x < l || (x == l && kk < k)) && #[trigger] diff_joins(offset_lists, diff_lists, x, kk, i, j)
                            ==> self.edge(i, j) && self.edge(j, i),
                    forall|i: int, j: int| #[trigger] old(self).edge(i, j) ==> self.edge(i, j),
                decreases diffs.len() - k,
            {
                let d = diffs[k];
                if let Some(lm) = left.get(d.left) {
                    if let Some(rm) = right.get(d.right) {
                        let ghost g0 = *self;
                        self.add_edge(lm.ix, rm.ix);
                        proof {
                            assert(diff_joins(offset_lists, diff_lists, l as int, k as int, lm.ix.0 as int, rm.ix.0 as int));
                            assert forall|i: int, j: int|
                                #[trigger] self.edge(i, j) implies (old(self).edge(i, j) || diff_edge(offset_lists, diff_lists, i, j)
                                    || diff_edge(offset_lists, diff_lists, j, i)) by {
                                if !g0.edge(i, j) {
                                    if i == lm.ix.0 && j == rm.ix.0 {
                                        assert(diff_joins(offset_lists, diff_lists, l as int, k as int, i, j));
                                    } else {
                                        assert(diff_joins(offset_lists, diff_lists, l as int, k as int, j, i));
                                    }
                                }
                            }
                            assert forall|x: int, kk: int, i: int, j: int|
                                (x < l || (x == l && kk < k + 1)) && #[trigger] diff_joins(offset_lists, diff_lists, x, kk, i, j)
                                    implies self.edge(i, j) && self.edge(j, i) by {
                                if x < l || kk < k {
                                    assert(g0.edge(i, j) && g0.edge(j, i));
                                }
                            }
                        }
                    } else {
                        proof {
                            assert forall|x: int, kk: int, i: int, j: int|
                                (x < l || (x == l && kk < k + 1)) && #[trigger] diff_joins(offset_lists, diff_lists, x, kk, i, j)
                                    implies self.edge(i, j) && self.edge(j, i) by {
                            }
                        }
                    }
                } else {
                    proof {
                        assert forall|x: int, kk: int, i: int, j: int|
                            (x < l || (x == l && kk < k + 1)) && #[trigger] diff_joins(offset_lists, diff_lists, x, kk, i, j)
                                implies self.edge(i, j) && self.edge(j, i) by {
                        }
                    }
                }
                k = k + 1;
            }
            l = l + 1;
        }
        proof {
            assert forall|i: int, j: int|
                (old(self).edge(i, j) || diff_edge(offset_lists, diff_lists, i, j) || diff_edge(offset_lists, diff_lists, j, i))
                    implies #[trigger] self.edge(i, j) by {
                if diff_edge(offset_lists, diff_lists, i, j) {
                    let (x, kk) = choose|x: int, kk: int| #[trigger] diff_joins(offset_lists, diff_lists, x, kk, i, j);
                } else if diff_edge(offset_lists, diff_lists, j, i) {
                    let (x, kk) = choose|x: int, kk: int| #[trigger] diff_joins(offset_lists, diff_lists, x, kk, j, i);
                }
            }
        }
        Ok(())
    }

    /// Seeds every bin entry whose offset has a node in its version's
    /// location set: the entry's identifier labels that node's component.
    /// Entries whose offset has no node are skipped; a bin whose version has
    /// no location set, or an entry that contradicts a label, is an error.
    pub fn seed_ids(&mut self, offset_lists: &OffsetLists, address_bins: &AddressBins) -> (r: Result<(), GraphError>)
        requires
            old(self).wf(),
            offset_lists.wf(),
            offset_lists.nodes_below(old(self).len()),
        ensures
            final(self).wf(),
            final(self).same_edges(old(self)),
            Self::only_filled(old(self).labels(), final(self).labels()),
            old(self).settled() ==> final(self).settled(),
            forall|n: int|
                0 <= n < old(self).len() && #[trigger] final(self).labels()[n] != old(self).labels()[n]
                    ==> exists|b: int, k: int|
                    #[trigger] reaches(old(self), offset_lists, address_bins, b, k, n) && final(self).labels()[n]
                        == Some(entry_id(address_bins, b, k)),
            r is Ok ==> bin_versions_known(offset_lists, address_bins),
            r is Err && r->Err_0 is MissingOffsets ==> offset_lists.spec_get(r->Err_0->MissingOffsets_0) is None,
            old(self).settled() && r is Err && r->Err_0 is Conflict ==> bins_conflict(
                old(self),
                offset_lists,
                address_bins,
            ),
            old(self).settled() && bin_versions_known(offset_lists, address_bins) && !bins_conflict(
                old(self),
                offset_lists,
                address_bins,
            ) ==> r is Ok,
            r is Ok ==> bins_agree(offset_lists, address_bins, final(self).labels()),
            old(self).settled() && r is Ok ==> seeded_by_bins(old(self), offset_lists, address_bins, final(self).labels()),
            bin_versions_known(offset_lists, address_bins) && bins_agree(offset_lists, address_bins, old(self).labels())
                ==> r is Ok && final(self).labels() == old(self).labels(),
    {
        let bins = address_bins.iter();
        let n = self.labels.len();
        let ghost unchanged = bin_versions_known(offset_lists, address_bins) && bins_agree(
            offset_lists,
            address_bins,
            old(self).labels(),
        );
        let mut b: usize = 0;
        while b < bins.len()
            invariant
                self.wf(),
                self.same_edges(old(self)),
                old(self).wf(),
                offset_lists.wf(),
                offset_lists.nodes_below(n as nat),
                n == old(self).len(),
                Self::only_filled(old(self).labels(), self.labels()),
                bins@ == address_bins.entries(),
                b <= bins.len(),
                unchanged == (bin_versions_known(offset_lists, address_bins) && bins_agree(
                    offset_lists,
                    address_bins,
                    old(self).labels(),
                )),
                forall|x: int| 0 <= x < b ==> offset_lists.spec_get((#[trigger] bins@[x]).0) is Some,
                forall|x: int, kk: int|
                    0 <= x < b && 0 <= kk < bins@[x].1.mappings().len() && (#[trigger] bin_node(offset_lists, address_bins, x, kk)) is Some
                        ==> self.labels()[bin_node(offset_lists, address_bins, x, kk)->Some_0] == Some(bins@[x].1.mappings()[kk].0),
                old(self).settled() ==> self.settled(),
                unchanged ==> self.labels() == old(self).labels(),
                forall|m: int|
                    0 <= m < n && #[trigger] self.labels()[m] != old(self).labels()[m] ==> exists|x: int, kk: int|
                        x < b && #[trigger] reaches(old(self), offset_lists, address_bins, x, kk, m) && self.labels()[m]
                            == Some(entry_id(address_bins, x, kk)),
                old(self).settled() ==> forall|x: int, kk: int, m: int|
                    x < b && #[trigger] reaches(old(self), offset_lists, address_bins, x, kk, m) ==> self.labels()[m]
                        == Some(entry_id(address_bins, x, kk)),
            decreases bins.len() - b,
        {
            let version = bins[b].0;
            let list = match offset_lists.get(version) {
                Some(x) => x,
                None => {
                    proof {
                        assert forall|m: int|
                            0 <= m < n && #[trigger] self.labels()[m] != old(self).labels()[m] implies exists|x: int, kk: int|
                                #[trigger] reaches(old(self), offset_lists, address_bins, x, kk, m) && self.labels()[m]
                                    == Some(entry_id(address_bins, x, kk)) by {
                            let (x, kk) = choose|x: int, kk: int|
                                x < b && #[trigger] reaches(old(self), offset_lists, address_bins, x, kk, m)
                                    && self.labels()[m] == Some(entry_id(address_bins, x, kk));
                            assert(reaches(old(self), offset_lists, address_bins, x, kk, m));
                        }
                    }
                    return Err(GraphError::MissingOffsets(version));
                },
            };
            let entries = bins[b].1.iter();
            let mut k: usize = 0;
            while k < entries.len()
                invariant
                    self.wf(),
                    self.same_edges(old(self)),
                    old(self).wf(),
                    offset_lists.wf(),
                    offset_lists.nodes_below(n as nat),
                    n == old(self).len(),
                    Self::only_filled(old(self).labels(), self.labels()),
                    bins@ == address_bins.entries(),
                    b < bins.len(),
                    version == bins@[b as int].0,
                    entries@ == bins@[b as int].1.mappings(),
                    offset_lists.spec_get(version) == Some(*list),
                    list.wf(),
                    list.nodes_below(n as nat),
                    k <= entries.len(),
                    unchanged == (bin_versions_known(offset_lists, address_bins) && bins_agree(
                        offset_lists,
                        address_bins,
                        old(self).labels(),
                    )),
                    forall|x: int| 0 <= x < b + 1 ==> offset_lists.spec_get((#[trigger] bins@[x]).0) is Some,
                    forall|x: int, kk: int|
                        ((0 <= x < b && 0 <= kk < bins@[x].1.mappings().len()) || (x == b && 0 <= kk < k))
                            && (#[trigger] bin_node(offset_lists, address_bins, x, kk)) is Some
                            ==> self.labels()[bin_node(offset_lists, address_bins, x, kk)->Some_0] == Some(bins@[x].1.mappings()[kk].0),
                    old(self).settled() ==> self.settled(),
                    unchanged ==> self.labels() == old(self).labels(),
                    forall|m: int|
                        0 <= m < n && #[trigger] self.labels()[m] != old(self).labels()[m] ==> exists|x: int, kk: int|
                            (x < b || (x == b && kk < k)) && #[trigger] reaches(old(self), offset_lists, address_bins, x, kk, m)
                                && self.labels()[m] == Some(entry_id(address_bins, x, kk)),
                    old(self).settled() ==> forall|x: int, kk: int, m: int|
                        (x < b || (x == b && kk < k)) && #[trigger] reaches(old(self), offset_lists, address_bins, x, kk, m)
                            ==> self.labels()[m] == Some(entry_id(address_bins, x, kk)),
                decreases entries.len() - k,
            {
                let (id, offset) = entries[k];
                if let Some(m) = list.get(offset) {
                    let ghost g0 = *self;
                    let ghost root = m.ix.0 as int;
                    assert(old(self).settled() ==> forall|x: int, kk: int, mm: int|
                        (x < b || (x == b && kk < k)) && #[trigger] reaches(old(self), offset_lists, address_bins, x, kk, mm)
                            ==> g0.labels()[mm] == Some(entry_id(address_bins, x, kk)));
                    assert(bin_node(offset_lists, address_bins, b as int, k as int) == Some(root));
                    assert(entry_id(address_bins, b as int, k as int) == id);
                    match self.seed(m.ix, id) {
                        Ok(()) => {},
                        Err(existing) => {
                            proof {
                                assert forall|mm: int|
                                    0 <= mm < n && #[trigger] self.labels()[mm] != old(self).labels()[mm] implies exists|x: int, kk: int|
                                        #[trigger] reaches(old(self), offset_lists, address_bins, x, kk, mm) && self.labels()[mm]
                                            == Some(entry_id(address_bins, x, kk)) by {
                                    if self.labels()[mm] != g0.labels()[mm] {
                                        lemma_connected_same_edges(&g0, old(self), root, mm);
                                        assert(reaches(old(self), offset_lists, address_bins, b as int, k as int, mm));
                                    } else {
                                        let (x, kk) = choose|x: int, kk: int|
                                            (x < b || (x == b && kk < k)) && #[trigger] reaches(old(self), offset_lists, address_bins, x, kk, mm)
                                                && g0.labels()[mm] == Some(entry_id(address_bins, x, kk));
                                        assert(reaches(old(self), offset_lists, address_bins, x, kk, mm));
                                    }
                                }
                                if old(self).settled() {
                                    assert(g0.labels()[root] is Some && g0.labels()[root] != Some(id));
                                    if old(self).labels()[root] is Some {
                                        assert(old(self).labels()[root] == g0.labels()[root]);
                                        assert(bin_node(offset_lists, address_bins, b as int, k as int) is Some);
                                    } else {
                                        assert(g0.labels()[root] != old(self).labels()[root]);
                                        let (x, kk) = choose|x: int, kk: int|
                                            (x < b || (x == b && kk < k)) && #[trigger] reaches(
                                                old(self),
                                                offset_lists,
                                                address_bins,
                                                x,
                                                kk,
                                                root,
                                            ) && g0.labels()[root] == Some(entry_id(address_bins, x, kk));
                                        assert(reaches(old(self), offset_lists, address_bins, x, kk, bin_node(offset_lists, address_bins, b as int, k as int)->Some_0));
                                    }
                                }
                            }
                            return Err(GraphError::Conflict { version, offset, seed: id, existing });
                        },
                    }
                    proof {
                        assert forall|mm: int|
                            0 <= mm < n && #[trigger] self.labels()[mm] != old(self).labels()[mm] implies exists|x: int, kk: int|
                                (x < b || (x == b && kk < k + 1)) && #[trigger] reaches(old(self), offset_lists, address_bins, x, kk, mm)
                                    && self.labels()[mm] == Some(entry_id(address_bins, x, kk)) by {
                            if self.labels()[mm] != g0.labels()[mm] {
                                lemma_connected_same_edges(&g0, old(self), root, mm);
                                assert(reaches(old(self), offset_lists, address_bins, b as int, k as int, mm));
                            } else {
                                let (x, kk) = choose|x: int, kk: int|
                                    (x < b || (x == b && kk < k)) && #[trigger] reaches(old(self), offset_lists, address_bins, x, kk, mm)
                                        && g0.labels()[mm] == Some(entry_id(address_bins, x, kk));
                                assert(reaches(old(self), offset_lists, address_bins, x, kk, mm));
                            }
                        }
                        if old(self).settled() {
                            assert forall|x: int, kk: int, mm: int|
                                (x < b || (x == b && kk < k + 1)) && #[trigger] reaches(old(self), offset_lists, address_bins, x, kk, mm)
                                    implies self.labels()[mm] == Some(entry_id(address_bins, x, kk)) by {
                                lemma_connected_in_range(old(self), bin_node(offset_lists, address_bins, x, kk)->Some_0, mm);
                                if x < b || (x == b && kk < k) {
                                    assert(g0.labels()[mm] == Some(entry_id(address_bins, x, kk)));
                                } else {
                                    lemma_connected_same_edges(old(self), &g0, root, mm);
                                    if g0.labels()[root] is Some {
                                        lemma_settled_component(&g0, root, mm);
                                    }
                                }
                            }
                        }
                        assert forall|x: int, kk: int|
                            ((0 <= x < b && 0 <= kk < bins@[x].1.mappings().len()) || (x == b && 0 <= kk < k + 1))
                                && (#[trigger] bin_node(offset_lists, address_bins, x, kk)) is Some
                                implies self.labels()[bin_node(offset_lists, address_bins, x, kk)->Some_0] == Some(bins@[x].1.mappings()[kk].0) by {
                            if !(x == b && kk == k) {
                                let node = bin_node(offset_lists, address_bins, x, kk)->Some_0;
                                assert(g0.labels()[node] is Some);
                            }
                        }
                    }
                } else {
                    assert(bin_node(offset_lists, address_bins, b as int, k as int) is None);
                    assert forall|x: int, kk: int, m: int|
                        (x < b || (x == b && kk < k + 1)) && #[trigger] reaches(old(self), offset_lists, address_bins, x, kk, m)
                            implies (x < b || (x == b && kk < k)) by {
                    }
                }
                k = k + 1;
            }
            b = b + 1;
        }
        proof {
            assert forall|m: int|
                0 <= m < n && #[trigger] self.labels()[m] != old(self).labels()[m] implies exists|x: int, kk: int|
                    #[trigger] reaches(old(self), offset_lists, address_bins, x, kk, m) && self.labels()[m] == Some(
                        entry_id(address_bins, x, kk),
                    ) by {
                let (x, kk) = choose|x: int, kk: int|
                    x < b && #[trigger] reaches(old(self), offset_lists, address_bins, x, kk, m) && self.labels()[m]
                        == Some(entry_id(address_bins, x, kk));
                assert(reaches(old(self), offset_lists, address_bins, x, kk, m));
            }
            if old(self).settled() {
                assert forall|m: int| 0 <= m < n implies {
                    &&& forall|x: int, kk: int| #[trigger] reaches(old(self), offset_lists, address_bins, x, kk, m)
                        ==> self.labels()[m] == Some(entry_id(address_bins, x, kk))
                    &&& (forall|x: int, kk: int| !#[trigger] reaches(old(self), offset_lists, address_bins, x, kk, m))
                        ==> self.labels()[m] == old(self).labels()[m]
                } by {
                    assert forall|x: int, kk: int| #[trigger] reaches(old(self), offset_lists, address_bins, x, kk, m)
                        implies self.labels()[m] == Some(entry_id(address_bins, x, kk)) by {
                        assert(x < b);
                    }
                }
            }
        }
        Ok(())
    }
}

/// Walking a path in a graph whose edges join equal labels keeps the label.
proof fn lemma_path_keeps_label(g: &Graph, p: Seq<int>, k: int)
    requires
        g.uniform(),
        g.is_path(p),
        0 <= k < p.len(),
    ensures
        g.labels()[p[0]] == g.labels()[p[k]],
    decreases k,
{
    if k > 0 {
        lemma_path_keeps_label(g, p, k - 1);
        let j = k - 1;
        assert(g.edge(p[j], p[j + 1]));
    }
}

/// Where the two ends of every edge carry the same label, every node of a
/// connected component carries the same label.
pub proof fn lemma_component_uniform(g: &Graph, a: int, b: int)
    requires
        g.uniform(),
        g.connected(a, b),
    ensures
        g.labels()[a] == g.labels()[b],
{
    let p = choose|p: Seq<int>| #[trigger] g.is_path(p) && p[0] == a && p.last() == b;
    lemma_path_keeps_label(g, p, p.len() - 1);
}

/// Identifiers minted by a fresh assignment that starts at the bins' largest
/// unused identifier are greater than every identifier the bins record.
pub proof fn lemma_minted_fresh(
    bins: &AddressBins,
    start: Id,
    before: Seq<Option<Id>>,
    after: Seq<Option<Id>>,
    i: int,
    b: int,
    k: int,
)
    requires
        bins.all_below(start@),
        Graph::assigned(before, after, start@),
        0 <= i < before.len(),
        before[i] is None,
        0 <= b < bins.entries().len(),
        0 <= k < bins.entries()[b].1.mappings().len(),
    ensures
        after[i]->Some_0@ > bins.entries()[b].1.mappings()[k].0@,
{
}

proof fn lemma_connected_in_range(g: &Graph, a: int, b: int)
    requires
        g.wf(),
        0 <= a < g.len(),
        g.connected(a, b),
    ensures
        0 <= b < g.len(),
{
    let p = choose|p: Seq<int>| #[trigger] g.is_path(p) && p[0] == a && p.last() == b;
    if p.len() > 1 {
        let j = p.len() - 2;
        assert(g.edge(p[j], p[j + 1]));
    }
}

proof fn lemma_connected_refl(g: &Graph, a: int)
    ensures
        g.connected(a, a),
{
    let p = seq![a];
    assert(g.is_path(p));
}

proof fn lemma_connected_step(g: &Graph, a: int, u: int, v: int)
    requires
        g.connected(a, u),
        g.edge(u, v),
    ensures
        g.connected(a, v),
{
    let p = choose|p: Seq<int>| #[trigger] g.is_path(p) && p[0] == a && p.last() == u;
    let q = p.push(v);
    assert forall|k: int| 0 <= k < q.len() - 1 implies #[trigger] g.edge(q[k], q[k + 1]) by {
        if k < p.len() - 1 {
            assert(g.edge(p[k], p[k + 1]));
        }
    }
    assert(g.is_path(q));
}

/// Graphs with the same edges have the same components.
proof fn lemma_connected_same_edges(g: &Graph, h: &Graph, a: int, b: int)
    requires
        forall|i: int, j: int| #[trigger] g.edge(i, j) == h.edge(i, j),
        g.connected(a, b),
    ensures
        h.connected(a, b),
{
    let p = choose|p: Seq<int>| #[trigger] g.is_path(p) && p[0] == a && p.last() == b;
    assert forall|k: int| 0 <= k < p.len() - 1 implies #[trigger] h.edge(p[k], p[k + 1]) by {
        assert(g.edge(p[k], p[k + 1]));
    }
    assert(h.is_path(p));
}

proof fn lemma_connected_symmetric(g: &Graph, a: int, b: int)
    requires
        g.wf(),
        g.connected(a, b),
    ensures
        g.connected(b, a),
{
    let p = choose|p: Seq<int>| #[trigger] g.is_path(p) && p[0] == a && p.last() == b;
    let q = p.reverse();
    assert forall|k: int| 0 <= k < q.len() - 1 implies #[trigger] g.edge(q[k], q[k + 1]) by {
        let m = p.len() - 2 - k;
        assert(g.edge(p[m], p[m + 1]));
        assert(q[k] == p[m + 1] && q[k + 1] == p[m]);
    }
    assert(g.is_path(q));
}

proof fn lemma_connected_transitive(g: &Graph, a: int, b: int, c: int)
    requires
        g.connected(a, b),
        g.connected(b, c),
    ensures
        g.connected(a, c),
{
    let p = choose|p: Seq<int>| #[trigger] g.is_path(p) && p[0] == a && p.last() == b;
    let r = choose|r: Seq<int>| #[trigger] g.is_path(r) && r[0] == b && r.last() == c;
    let q = p + r.drop_first();
    assert forall|k: int| 0 <= k < q.len() - 1 implies #[trigger] g.edge(q[k], q[k + 1]) by {
        if k < p.len() - 1 {
            assert(g.edge(p[k], p[k + 1]));
        } else {
            let m = k - (p.len() - 1);
            assert(g.edge(r[m], r[m + 1]));
            if k == p.len() - 1 {
                assert(q[k] == r[0]);
            }
        }
    }
    if r.len() == 1 {
        assert(q =~= p);
    }
    assert(g.is_path(q));
}

/// In a settled graph the nodes of one component carry one label.
proof fn lemma_settled_component(g: &Graph, a: int, b: int)
    requires
        g.wf(),
        g.settled(),
        g.connected(a, b),
    ensures
        g.labels()[a] == g.labels()[b],
{
    lemma_connected_symmetric(g, a, b);
    if g.labels()[a] is Some {
        let p = choose|p: Seq<int>| #[trigger] g.is_path(p) && p[0] == a && p.last() == b;
        lemma_settled_path(g, p, p.len() - 1);
    } else if g.labels()[b] is Some {
        let p = choose|p: Seq<int>| #[trigger] g.is_path(p) && p[0] == b && p.last() == a;
        lemma_settled_path(g, p, p.len() - 1);
    }
}

proof fn lemma_settled_path(g: &Graph, p: Seq<int>, k: int)
    requires
        g.settled(),
        g.is_path(p),
        0 <= k < p.len(),
        g.labels()[p[0]] is Some,
    ensures
        g.labels()[p[k]] == g.labels()[p[0]],
    decreases k,
{
    if k > 0 {
        lemma_settled_path(g, p, k - 1);
        let j = k - 1;
        assert(g.edge(p[j], p[j + 1]));
    }
}

/// Seeding `x` at `a` then `y` at `b` labels node `i` of a settled graph:
/// `a`'s component takes `x`, `b`'s takes `y`, other nodes keep their label.
proof fn lemma_seed_twice_at(g: &Graph, a: int, x: Id, b: int, y: Id, i: int)
    requires
        g.wf(),
        g.settled(),
        0 <= a < g.len(),
        0 <= b < g.len(),
        0 <= i < g.len(),
        g.labels()[a] is None || g.labels()[a] == Some(x),
        g.labels()[b] is None || g.labels()[b] == Some(y),
        g.connected(a, b) ==> x == y,
    ensures
        seeded_labels(g, seeded_labels(g, g.labels(), a, x), b, y)[i] == if g.connected(a, i) {
            Some(x)
        } else if g.connected(b, i) {
            Some(y)
        } else {
            g.labels()[i]
        },
{
    let l = g.labels();
    let la = seeded_labels(g, l, a, x);
    assert(la.len() == l.len());
    assert forall|j: int| 0 <= j < l.len() implies #[trigger] la[j] == if g.connected(a, j) {
        Some(x)
    } else {
        l[j]
    } by {
        if g.connected(a, j) && l[a] is Some {
            lemma_settled_component(g, a, j);
        }
    }
    if g.connected(a, i) && g.connected(b, i) {
        lemma_connected_symmetric(g, b, i);
        lemma_connected_transitive(g, a, i, b);
    }
    if g.connected(b, i) {
        if la[b] is Some {
            if g.connected(a, b) {
                lemma_connected_transitive(g, a, b, i);
            } else {
                lemma_settled_component(g, b, i);
            }
        }
    }
}

/// Seeding two identifiers into a settled graph gives the same labels in
/// either order, where the two do not conflict: the seeded nodes carry no
/// other identifier, and the two identifiers are equal where the nodes share
/// a component.
pub proof fn lemma_seeding_order_independent(g: &Graph, a: int, x: Id, b: int, y: Id)
    requires
        g.wf(),
        g.settled(),
        0 <= a < g.len(),
        0 <= b < g.len(),
        g.labels()[a] is None || g.labels()[a] == Some(x),
        g.labels()[b] is None || g.labels()[b] == Some(y),
        g.connected(a, b) ==> x == y,
    ensures
        seeded_labels(g, seeded_labels(g, g.labels(), a, x), b, y) == seeded_labels(
            g,
            seeded_labels(g, g.labels(), b, y),
            a,
            x,
        ),
{
    let ab = seeded_labels(g, seeded_labels(g, g.labels(), a, x), b, y);
    let ba = seeded_labels(g, seeded_labels(g, g.labels(), b, y), a, x);
    if g.connected(b, a) {
        lemma_connected_symmetric(g, b, a);
    }
    assert forall|i: int| 0 <= i < g.len() implies #[trigger] ab[i] == ba[i] by {
        lemma_seed_twice_at(g, a, x, b, y, i);
        lemma_seed_twice_at(g, b, y, a, x, i);
        if g.connected(a, i) && g.connected(b, i) {
            lemma_connected_symmetric(g, b, i);
            lemma_connected_transitive(g, a, i, b);
        }
    }
    assert(ab =~= ba);
}

proof fn lemma_reaches_same_edges(g: &Graph, h: &Graph, ol: &OffsetLists, ab: &AddressBins, b: int, k: int, n: int)
    requires
        forall|i: int, j: int| #[trigger] g.edge(i, j) == h.edge(i, j),
        reaches(g, ol, ab, b, k, n),
    ensures
        reaches(h, ol, ab, b, k, n),
{
    lemma_connected_same_edges(g, h, bin_node(ol, ab, b, k)->Some_0, n);
}

/// Seeding two sets of bins, each run succeeding, leaves the same labels in
/// either order: `ga` is `g` seeded with `a`, `gab` that seeded with `b`;
/// `gb` and `gba` the same in the other order.
pub proof fn lemma_seed_ids_order_independent(
    g: &Graph,
    ga: &Graph,
    gab: &Graph,
    gb: &Graph,
    gba: &Graph,
    ol: &OffsetLists,
    a: &AddressBins,
    b: &AddressBins,
)
    requires
        ga.same_edges(g),
        gb.same_edges(g),
        seeded_by_bins(g, ol, a, ga.labels()),
        seeded_by_bins(ga, ol, b, gab.labels()),
        Graph::only_filled(ga.labels(), gab.labels()),
        seeded_by_bins(g, ol, b, gb.labels()),
        seeded_by_bins(gb, ol, a, gba.labels()),
        Graph::only_filled(gb.labels(), gba.labels()),
    ensures
        gab.labels() == gba.labels(),
{
    assert forall|n: int| 0 <= n < g.len() implies #[trigger] gab.labels()[n] == gba.labels()[n] by {
        let ra = exists|x: int, k: int| #[trigger] reaches(g, ol, a, x, k, n);
        let rb = exists|x: int, k: int| #[trigger] reaches(g, ol, b, x, k, n);
        if ra {
            let (x, k) = choose|x: int, k: int| #[trigger] reaches(g, ol, a, x, k, n);
            lemma_reaches_same_edges(g, gb, ol, a, x, k, n);
            assert(ga.labels()[n] == Some(entry_id(a, x, k)));
            assert(gba.labels()[n] == Some(entry_id(a, x, k)));
            assert(gab.labels()[n] == ga.labels()[n]);
            if rb {
                let (y, j) = choose|y: int, j: int| #[trigger] reaches(g, ol, b, y, j, n);
                lemma_reaches_same_edges(g, ga, ol, b, y, j, n);
                assert(gb.labels()[n] == Some(entry_id(b, y, j)));
                assert(gab.labels()[n] == Some(entry_id(b, y, j)));
            }
        } else if rb {
            let (y, j) = choose|y: int, j: int| #[trigger] reaches(g, ol, b, y, j, n);
            lemma_reaches_same_edges(g, ga, ol, b, y, j, n);
            assert(gab.labels()[n] == Some(entry_id(b, y, j)));
            assert(gba.labels()[n] == gb.labels()[n]);
            assert forall|x: int, k: int| !#[trigger] reaches(ga, ol, a, x, k, n) by {
                if reaches(ga, ol, a, x, k, n) {
                    lemma_reaches_same_edges(ga, g, ol, a, x, k, n);
                }
            }
        } else {
            assert forall|x: int, k: int| !#[trigger] reaches(ga, ol, b, x, k, n) by {
                if reaches(ga, ol, b, x, k, n) {
                    lemma_reaches_same_edges(ga, g, ol, b, x, k, n);
                }
            }
            assert forall|x: int, k: int| !#[trigger] reaches(gb, ol, a, x, k, n) by {
                if reaches(gb, ol, a, x, k, n) {
                    lemma_reaches_same_edges(gb, g, ol, a, x, k, n);
                }
            }
            assert(gab.labels()[n] == ga.labels()[n]);
            assert(gba.labels()[n] == gb.labels()[n]);
        }
        if ra && !rb {
            assert forall|x: int, k: int| !#[trigger] reaches(ga, ol, b, x, k, n) by {
                if reaches(ga, ol, b, x, k, n) {
                    lemma_reaches_same_edges(ga, g, ol, b, x, k, n);
                }
            }
        }
    }
    assert(gab.labels() =~= gba.labels());
}

/// A graph in which no node carries an identifier is settled: the state
/// before seeding, from which complete and uniform labelling follows.
pub proof fn lemma_unlabeled_settled(g: &Graph)
    requires
        g.wf(),
        forall|i: int| 0 <= i < g.len() ==> (#[trigger] g.labels()[i]) is None,
    ensures
        g.settled(),
{
    assert forall|i: int, j: int| #[trigger] g.edge(i, j) && g.labels()[i] is Some implies g.labels()[j] == g.labels()[i] by {
        assert(0 <= i < g.adjacency@.len());
    }
}

} // verus!
