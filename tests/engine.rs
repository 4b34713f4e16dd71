use addresslibgen::addrlib::{AddressBin, AddressBins};
use addresslibgen::common::{Id, Offset, Version};
use addresslibgen::diffs::{Diff, DiffList, DiffLists};
use addresslibgen::graph::{AssignError, Graph, GraphError, Ix};
use addresslibgen::offsets::{OffsetList, OffsetLists};

fn v(major: u16, minor: u16, patch: u16) -> Version {
    Version::new(major, minor, patch, 0)
}

fn id(x: u64) -> Id {
    Id::try_from(x).unwrap()
}

/// Builds the location sets of the given versions, one node per offset.
fn locations(graph: &mut Graph, versions: &[(Version, Vec<u32>)]) -> OffsetLists {
    let mut lists = OffsetLists::new();
    for (version, offsets) in versions {
        let offsets: Vec<Offset> = offsets.iter().map(|x| Offset(*x)).collect();
        let list = OffsetList::from_offsets(&offsets, graph);
        assert!(lists.insert(*version, list).is_ok());
    }
    lists
}

fn node(lists: &OffsetLists, version: Version, offset: u32) -> Ix {
    lists.get(version).unwrap().get(Offset(offset)).unwrap().ix
}

fn bins(entries: &[(Version, Vec<(u64, u32)>)]) -> AddressBins {
    let mut bins = AddressBins::new();
    for (version, records) in entries {
        let records = records.iter().map(|(i, o)| (id(*i), Offset(*o))).collect();
        assert!(bins.insert(*version, AddressBin::new(records)).is_ok());
    }
    bins
}

fn diffs(entries: &[(Version, Version, Vec<(u32, u32)>)]) -> DiffLists {
    let mut lists = DiffLists::new();
    for (left, right, pairs) in entries {
        let pairs = pairs.iter().map(|(l, r)| Diff { left: Offset(*l), right: Offset(*r) }).collect();
        lists.push(DiffList::new(*left, *right, pairs).unwrap());
    }
    lists
}

#[test]
fn scenario_seeded_id_crosses_versions() {
    let mut graph = Graph::new();
    let lists = locations(&mut graph, &[(v(1, 0, 0), vec![0x1000]), (v(1, 1, 0), vec![0x1004])]);
    let d = diffs(&[(v(1, 0, 0), v(1, 1, 0), vec![(0x1000, 0x1004)])]);
    graph.add_edges(&lists, &d).unwrap();
    let b = bins(&[(v(1, 0, 0), vec![(5, 0x1000)])]);
    graph.seed_ids(&lists, &b).unwrap();
    assert_eq!(graph.get(node(&lists, v(1, 1, 0), 0x1004)).get(), 5);
}

#[test]
fn scenario_fresh_ids_follow_creation_order() {
    let mut graph = Graph::new();
    let lists = locations(&mut graph, &[(v(1, 0, 0), vec![0x10]), (v(1, 1, 0), vec![0x20])]);
    let b = AddressBins::new();
    graph.add_edges(&lists, &DiffLists::new()).unwrap();
    graph.seed_ids(&lists, &b).unwrap();
    let start = b.largest_unused_id().unwrap();
    assert_eq!(start.get(), 0);
    graph.assign_all_ids(start).unwrap();
    let first = graph.get(node(&lists, v(1, 0, 0), 0x10)).get();
    let second = graph.get(node(&lists, v(1, 1, 0), 0x20)).get();
    assert_eq!(first, 0);
    assert_eq!(second, 1);
}

#[test]
fn scenario_conflicting_bins_abort() {
    let mut graph = Graph::new();
    let lists = locations(&mut graph, &[(v(1, 0, 0), vec![0x1000]), (v(1, 1, 0), vec![0x1004])]);
    let d = diffs(&[(v(1, 0, 0), v(1, 1, 0), vec![(0x1000, 0x1004)])]);
    graph.add_edges(&lists, &d).unwrap();
    let b = bins(&[(v(1, 0, 0), vec![(5, 0x1000)]), (v(1, 1, 0), vec![(6, 0x1004)])]);
    let r = graph.seed_ids(&lists, &b);
    assert_eq!(
        r,
        Err(GraphError::Conflict { version: v(1, 1, 0), offset: Offset(0x1004), seed: id(6), existing: id(5) })
    );
    assert_eq!(graph.get(node(&lists, v(1, 0, 0), 0x1000)).get(), 5);
}

#[test]
fn chained_diffs_share_one_id() {
    let mut graph = Graph::new();
    let lists = locations(
        &mut graph,
        &[(v(1, 0, 0), vec![0x1, 0x2]), (v(1, 1, 0), vec![0x3, 0x4]), (v(1, 2, 0), vec![0x5])],
    );
    let d = diffs(&[
        (v(1, 0, 0), v(1, 1, 0), vec![(0x1, 0x3), (0x9, 0x4)]),
        (v(1, 1, 0), v(1, 2, 0), vec![(0x3, 0x5)]),
    ]);
    graph.add_edges(&lists, &d).unwrap();
    graph.assign_all_ids(id(10)).unwrap();
    let a = graph.get(node(&lists, v(1, 0, 0), 0x1));
    assert_eq!(a, graph.get(node(&lists, v(1, 1, 0), 0x3)));
    assert_eq!(a, graph.get(node(&lists, v(1, 2, 0), 0x5)));
    assert_eq!(a.get(), 10);
    assert_eq!(graph.get(node(&lists, v(1, 0, 0), 0x2)).get(), 11);
    assert_eq!(graph.get(node(&lists, v(1, 1, 0), 0x4)).get(), 12);
    for i in 0..graph.node_count() {
        assert!(graph.label(Ix(i)).is_some());
    }
}

#[test]
fn minted_ids_exceed_bin_ids() {
    let mut graph = Graph::new();
    let lists = locations(&mut graph, &[(v(1, 0, 0), vec![0x1, 0x2, 0x3])]);
    let b = bins(&[(v(1, 0, 0), vec![(40, 0x1), (7, 0x2)]), (v(0, 9, 0), vec![(41, 0x77)])]);
    let lists2 = {
        let mut l = lists;
        let extra = OffsetList::from_offsets(&vec![Offset(0x77)], &mut graph);
        assert!(l.insert(v(0, 9, 0), extra).is_ok());
        l
    };
    graph.seed_ids(&lists2, &b).unwrap();
    let start = b.largest_unused_id().unwrap();
    assert_eq!(start.get(), 42);
    graph.assign_all_ids(start).unwrap();
    assert_eq!(graph.get(node(&lists2, v(1, 0, 0), 0x3)).get(), 42);
    assert_eq!(graph.get(node(&lists2, v(1, 0, 0), 0x1)).get(), 40);
}

#[test]
fn reseeding_with_matching_bin_changes_nothing() {
    let mut graph = Graph::new();
    let lists = locations(&mut graph, &[(v(1, 0, 0), vec![0x1, 0x2]), (v(1, 1, 0), vec![0x3])]);
    let d = diffs(&[(v(1, 0, 0), v(1, 1, 0), vec![(0x1, 0x3)])]);
    graph.add_edges(&lists, &d).unwrap();
    let b = bins(&[(v(1, 0, 0), vec![(3, 0x1)])]);
    graph.seed_ids(&lists, &b).unwrap();
    let before: Vec<Option<Id>> = (0..graph.node_count()).map(|i| graph.label(Ix(i))).collect();
    graph.seed_ids(&lists, &b).unwrap();
    let after: Vec<Option<Id>> = (0..graph.node_count()).map(|i| graph.label(Ix(i))).collect();
    assert_eq!(before, after);
    assert_eq!(after[2], Some(id(3)));
    assert_eq!(after[1], None);
}

#[test]
fn seeding_order_does_not_matter() {
    let build = |order: &[usize]| {
        let mut graph = Graph::new();
        let lists = locations(&mut graph, &[(v(1, 0, 0), vec![0x1, 0x2]), (v(1, 1, 0), vec![0x3, 0x4])]);
        let d = diffs(&[(v(1, 0, 0), v(1, 1, 0), vec![(0x1, 0x3)])]);
        graph.add_edges(&lists, &d).unwrap();
        let all = [(v(1, 0, 0), vec![(8u64, 0x1u32), (9, 0x2)]), (v(1, 1, 0), vec![(8, 0x3), (12, 0x4)])];
        for i in order {
            graph.seed_ids(&lists, &bins(&[all[*i].clone()])).unwrap();
        }
        (0..graph.node_count()).map(|i| graph.label(Ix(i))).collect::<Vec<_>>()
    };
    assert_eq!(build(&[0, 1]), build(&[1, 0]));
    assert_eq!(build(&[0, 1]), vec![Some(id(8)), Some(id(9)), Some(id(8)), Some(id(12))]);
}

#[test]
fn collections_walk_versions_in_order() {
    let mut graph = Graph::new();
    let lists = locations(&mut graph, &[(v(1, 2, 0), vec![0x1]), (v(1, 0, 0), vec![0x2]), (v(1, 1, 5), vec![0x3])]);
    let order: Vec<Version> = lists.iter().iter().map(|(v, _)| *v).collect();
    assert_eq!(order, vec![v(1, 0, 0), v(1, 1, 5), v(1, 2, 0)]);
    let b = bins(&[(v(2, 0, 0), vec![]), (v(1, 0, 0), vec![])]);
    let order: Vec<Version> = b.iter().iter().map(|(v, _)| *v).collect();
    assert_eq!(order, vec![v(1, 0, 0), v(2, 0, 0)]);
}

#[test]
fn missing_offsets_for_diff_version() {
    let mut graph = Graph::new();
    let lists = locations(&mut graph, &[(v(1, 0, 0), vec![0x1])]);
    let d = diffs(&[(v(1, 0, 0), v(2, 0, 0), vec![(0x1, 0x1)])]);
    assert_eq!(graph.add_edges(&lists, &d), Err(GraphError::MissingOffsets(v(2, 0, 0))));
}

#[test]
fn missing_offsets_for_bin_version() {
    let mut graph = Graph::new();
    let lists = locations(&mut graph, &[(v(1, 0, 0), vec![0x1])]);
    let b = bins(&[(v(3, 0, 0), vec![(1, 0x1)])]);
    assert_eq!(graph.seed_ids(&lists, &b), Err(GraphError::MissingOffsets(v(3, 0, 0))));
}

#[test]
fn bin_entry_for_unknown_offset_is_skipped() {
    let mut graph = Graph::new();
    let lists = locations(&mut graph, &[(v(1, 0, 0), vec![0x1])]);
    let b = bins(&[(v(1, 0, 0), vec![(4, 0x99)])]);
    graph.seed_ids(&lists, &b).unwrap();
    assert_eq!(graph.label(Ix(0)), None);
}

#[test]
fn labeled_node_met_during_assignment() {
    let mut graph = Graph::new();
    let a = graph.add_node();
    let b = graph.add_node();
    graph.seed(a, id(5)).unwrap();
    graph.add_edge(a, b);
    assert_eq!(graph.assign_all_ids(id(9)), Err(AssignError::AlreadyAssigned));
}

#[test]
fn seed_reports_existing_id() {
    let mut graph = Graph::new();
    let a = graph.add_node();
    assert_eq!(graph.seed(a, id(5)), Ok(()));
    assert_eq!(graph.seed(a, id(5)), Ok(()));
    assert_eq!(graph.seed(a, id(6)), Err(id(5)));
}

#[test]
fn assignment_runs_out_of_ids() {
    let mut graph = Graph::new();
    graph.add_node();
    graph.add_node();
    let r = graph.assign_all_ids(id(u64::MAX - 2));
    assert!(matches!(r, Err(AssignError::IdRange(_))));
}

#[test]
fn duplicate_offset_gets_one_node() {
    let mut graph = Graph::new();
    let list = OffsetList::from_offsets(&vec![Offset(7), Offset(8), Offset(7)], &mut graph);
    assert_eq!(graph.node_count(), 2);
    assert_eq!(list.get(Offset(7)).unwrap().ix, Ix(0));
    assert_eq!(list.get(Offset(8)).unwrap().ix, Ix(1));
    assert_eq!(list.iter().len(), 2);
    assert!(list.get(Offset(9)).is_none());
}

#[test]
fn diff_list_to_same_version_refused() {
    assert!(DiffList::new(v(1, 0, 0), v(1, 0, 0), vec![]).is_none());
    let d = DiffList::new(v(1, 0, 0), v(1, 1, 0), vec![Diff { left: Offset(1), right: Offset(2) }]).unwrap();
    assert_eq!(d.iter().len(), 1);
    let mut lists = DiffLists::new();
    lists.push(d);
    assert_eq!(lists.iter().len(), 1);
}
