use enroute_git::error::Error;
use enroute_git::ingest::chains::{
    all_entries, bound_chains, known_objects, max_chain, older_bases, placed, Placed,
    MAX_TREE_CHAIN,
};
use enroute_git::ingest::classify::{
    bases_without_home, classify, delta_base, homes, older_homes, queries, stored_homes,
    wire_deltas, Query,
};
use enroute_git::ingest::connectivity::{all_recorded, sort_connectivity, walk};
use enroute_git::ingest::graph::{commit_parents, Change, ObjectRefs, TreeChild, TreeDiff};
use enroute_git::ingest::order::{dependency_order, section_order};
use enroute_git::ingest::pack::{EntryBase, RawSpan, ScannedEntry, WirePack, WirePacks};
use enroute_git::ingest::plan::{DeltaEntry, DeltaPlan, EntrySource, WireRef};
use enroute_git::ingest::rounds::{
    boundary, children, diff_round, lattice_bases, located, planned, read_trees, root_trees_of,
    settled_count, start,
};
use enroute_git::metadata::refs::RefUpdate;
use enroute_git::model::{CommitPackLocation, Identity, ObjectMeta, PackImageLocation};
use enroute_git::object::{Kind, ObjectId};
use enroute_git::objects::location::{SegmentLocation, Ulid};
use enroute_git::ordmap::{OrdMap, OrdSet};

fn oid(n: u8) -> ObjectId {
    ObjectId::from_bytes(&[n; 20])
}

fn map<V>(pairs: Vec<(u8, V)>) -> OrdMap<ObjectId, V> {
    let mut map = OrdMap::new();
    for (n, value) in pairs {
        map.insert(oid(n), value);
    }
    map
}

fn commit(root: u8, parents: &[u8]) -> ObjectRefs {
    ObjectRefs::Commit {
        root_tree: oid(root),
        parents: parents.iter().map(|n| oid(*n)).collect(),
        committer_date: 0,
    }
}

fn tree(entries: &[u8]) -> ObjectRefs {
    ObjectRefs::Tree(children_of(entries))
}

fn children_of(entries: &[u8]) -> Vec<TreeChild> {
    entries
        .iter()
        .map(|n| TreeChild { oid: oid(*n), is_tree: false, is_commit: false, name: vec![*n] })
        .collect()
}

fn encoded(n: u8, kind: Kind, base: Option<u8>) -> DeltaEntry {
    DeltaEntry { oid: oid(n), kind, base: base.map(oid), source: EntrySource::Encoded }
}

fn meta(pack: u8, base: Option<u8>) -> ObjectMeta {
    ObjectMeta {
        kind: Kind::Blob,
        location: Some(CommitPackLocation {
            image: PackImageLocation {
                pack_sha: oid(pack),
                offset: 1,
                entry_len: 2,
                base: base.map(oid),
            },
            segment: SegmentLocation { id: Ulid(1), base_offset: 3, image_len: 4 },
        }),
        object_seq: None,
    }
}

#[test]
fn a_commit_is_compared_with_its_first_parent() {
    let push = map(vec![(1, commit(11, &[])), (2, commit(12, &[1, 50])), (3, commit(13, &[51]))]);
    assert_eq!(boundary(&push), vec![oid(51)], "only a first parent is a base");
    let roots = map(vec![(51, oid(60))]);
    let pending = start(&push, &roots);
    let bases: Vec<Option<ObjectId>> = pending.iter().map(|one| one.base_root).collect();
    assert_eq!(bases, vec![None, Some(oid(11)), Some(oid(60))]);
    assert_eq!(settled_count(&pending), 0);
}

fn diff(changes: Vec<Change>, unreadable: &[u8]) -> Option<TreeDiff> {
    Some(TreeDiff { changes, unreadable: unreadable.iter().map(|n| oid(*n)).collect() })
}

#[test]
fn a_round_asks_for_the_trees_that_it_lacks() {
    let push = map(vec![(1, commit(11, &[])), (2, commit(12, &[1]))]);
    let mut pending = start(&push, &OrdMap::new());
    let change = |n| Change { path: vec![n], kind: Kind::Blob, old: None, new: oid(n) };

    let mut fetched = OrdMap::new();
    let round = diff_round(
        &mut pending,
        &[diff(vec![change(20)], &[]), diff(vec![], &[70, 71, 70])],
        &fetched,
    );
    assert_eq!(round, Ok(vec![oid(70), oid(71)]));
    assert_eq!(settled_count(&pending), 1);

    let read = read_trees(&[oid(70), oid(71)], vec![(oid(70), tree(&[30]))]).unwrap();
    assert!(read.get(&oid(70)).unwrap().is_some());
    assert!(read.get(&oid(71)).unwrap().is_none(), "asked for, and not there");
    fetched.insert(oid(70), Some(children_of(&[30])));
    fetched.insert(oid(71), Some(children_of(&[31])));
    assert_eq!(children(&push, &fetched, oid(70)).unwrap().len(), 1);
    assert!(children(&push, &fetched, oid(72)).is_none());

    let round = diff_round(&mut pending, &[None, diff(vec![change(21)], &[])], &fetched);
    assert_eq!(round, Ok(vec![]));
    let plan = planned(pending);
    assert_eq!(plan.packs.get(&oid(1)).unwrap().len(), 2);
    assert_eq!(plan.packs.get(&oid(2)).unwrap()[0].base, Some(oid(11)));
}

#[test]
fn a_tree_that_stays_unreadable_is_reported() {
    let push = map(vec![(1, commit(11, &[]))]);
    let mut pending = start(&push, &OrdMap::new());
    let fetched = map(vec![(70, Some(children_of(&[])))]);
    let stuck = diff_round(&mut pending, &[diff(vec![], &[70])], &fetched);
    assert_eq!(stuck, Err(Error::TreeUnreadable));
    assert!(matches!(
        read_trees(&[oid(70)], vec![(oid(70), ObjectRefs::Blob)]),
        Err(Error::NotATree)
    ));
}

#[test]
fn a_boundary_parent_must_be_a_commit() {
    let known = map(vec![
        (1, Identity { seq: 4, kind: Kind::Commit }),
        (2, Identity { seq: 5, kind: Kind::Blob }),
    ]);
    assert_eq!(
        lattice_bases(&[oid(1), oid(3)], &known).unwrap(),
        vec![(oid(1), Identity { seq: 4, kind: Kind::Commit })]
    );
    assert_eq!(lattice_bases(&[oid(2)], &known), Err(Error::BaseNotCommit));
    let roots = root_trees_of(&[(oid(1), commit(11, &[]))]).unwrap();
    assert_eq!(roots.get(&oid(1)), Some(&oid(11)));
    assert!(matches!(
        root_trees_of(&[(oid(1), ObjectRefs::Blob)]),
        Err(Error::BaseNotCommit)
    ));
}

#[test]
fn what_is_stored_is_read_where_it_is() {
    let metas = map(vec![(1, meta(9, None))]);
    let wanted = located(&[oid(1), oid(2)], &metas);
    assert_eq!(wanted.len(), 1);
    assert_eq!(wanted[0].1.image.pack_sha, oid(9));
}

#[test]
fn a_chain_is_cut_where_it_grows_too_long() {
    assert_eq!((max_chain(Kind::Tree), max_chain(Kind::Blob)), (8, 32));
    let mut packs = OrdMap::new();
    let mut order = Vec::new();
    for n in 1..=12u8 {
        let base = if n == 1 { None } else { Some(100 + n - 1) };
        packs.insert(oid(n), vec![encoded(100 + n, Kind::Tree, base)]);
        order.push(oid(n));
    }
    bound_chains(&mut packs, &order, &OrdMap::new(), &OrdMap::new());
    let whole: Vec<u8> = (1..=12u8)
        .filter(|n| packs.get(&oid(*n)).unwrap()[0].base.is_none())
        .collect();
    assert_eq!(whole, vec![1, 1 + MAX_TREE_CHAIN as u8 + 1]);
}

#[test]
fn a_base_that_comes_later_is_dropped() {
    let mut packs = map(vec![
        (1, vec![encoded(10, Kind::Blob, Some(11))]),
        (2, vec![encoded(11, Kind::Blob, None)]),
    ]);
    bound_chains(&mut packs, &[oid(1), oid(2)], &OrdMap::new(), &OrdMap::new());
    assert_eq!(packs.get(&oid(1)).unwrap()[0].base, None);
}

#[test]
fn stored_objects_come_before_those_of_the_push() {
    let stored = map(vec![(1, 7i64)]);
    let rank = map(vec![(1, 3usize), (2, 4usize)]);
    assert_eq!(placed(oid(1), &stored, &rank, true), Some(Placed::Stored(7)));
    assert_eq!(placed(oid(1), &stored, &rank, false), Some(Placed::InPush(3)));
    assert_eq!(placed(oid(2), &stored, &rank, true), Some(Placed::InPush(4)));
    assert_eq!(placed(oid(3), &stored, &rank, true), None);
    assert!(Placed::Stored(7).is_before(Placed::InPush(0)));
    assert!(Placed::InPush(1).is_before(Placed::InPush(2)));
    assert!(!Placed::Stored(7).is_before(Placed::Stored(7)));
}

#[test]
fn older_bases_are_those_that_no_pack_stores() {
    let packs = map(vec![
        (1, vec![encoded(10, Kind::Blob, Some(50)), encoded(11, Kind::Blob, Some(10))]),
        (2, vec![encoded(12, Kind::Blob, None)]),
    ]);
    assert_eq!(older_bases(&packs), vec![oid(50)]);
    assert_eq!(all_entries(&packs).len(), 3);
    let mut known = known_objects(&packs, &[oid(50)]);
    known.sort_by_key(|oid| oid.to_bytes());
    assert_eq!(known, vec![oid(10), oid(11), oid(50)]);
}

#[test]
fn a_base_stands_before_what_deltas_on_it() {
    let entries = [
        encoded(1, Kind::Blob, Some(2)),
        encoded(2, Kind::Blob, Some(3)),
        encoded(3, Kind::Blob, None),
    ];
    let ids: Vec<ObjectId> = section_order(&entries).iter().map(|entry| entry.oid).collect();
    assert_eq!(ids, vec![oid(3), oid(2), oid(1)]);
    let mixed = [
        encoded(1, Kind::Blob, Some(2)),
        encoded(5, Kind::Tree, None),
        encoded(2, Kind::Blob, None),
    ];
    let ids: Vec<ObjectId> = dependency_order(&mixed).iter().map(|entry| entry.oid).collect();
    assert_eq!(ids, vec![oid(5), oid(2), oid(1)], "trees stay ahead of blobs");
}

#[test]
fn entries_that_delta_on_each_other_are_all_kept() {
    let entries = [encoded(1, Kind::Blob, Some(2)), encoded(2, Kind::Blob, Some(1))];
    assert_eq!(section_order(&entries).len(), 2);
}

fn scanned(base: EntryBase, at: u64) -> ScannedEntry {
    ScannedEntry {
        base,
        decompressed_size: 1,
        entry: RawSpan { offset: at, len: 2 },
        header_len: 1,
    }
}

/// A push of two commits whose second blob came as a delta on the first.
fn sent() -> (WirePacks, DeltaPlan, OrdMap<ObjectId, Vec<ObjectId>>) {
    let entries = vec![
        scanned(EntryBase::Whole(Kind::Commit), 0),
        scanned(EntryBase::Whole(Kind::Commit), 2),
        scanned(EntryBase::Whole(Kind::Blob), 4),
        scanned(EntryBase::InPack(2), 6),
    ];
    let oids = vec![oid(1), oid(2), oid(10), oid(11)];
    let mut wire = WirePacks::new();
    wire.adopt(WirePack::new(vec![0; 8], entries, oids).unwrap());
    let plan = DeltaPlan {
        packs: map(vec![
            (1, vec![encoded(10, Kind::Blob, None)]),
            (2, vec![encoded(11, Kind::Blob, Some(10))]),
        ]),
        commits: OrdMap::new(),
    };
    let push = map(vec![(1, commit(50, &[])), (2, commit(51, &[1]))]);
    (wire, plan, commit_parents(&push))
}

#[test]
fn a_client_delta_on_a_readable_base_is_the_one_stored() {
    let (wire, mut plan, parents) = sent();
    let homes = homes(&plan.packs);
    let mut proven = OrdSet::new();
    proven.insert(Query { target: oid(2), home: oid(1) });
    classify(&mut plan, &wire, &parents, &homes, &OrdMap::new(), &proven).unwrap();
    let kept = plan.packs.get(&oid(2)).unwrap()[0];
    assert_eq!(kept.source, EntrySource::Wire(WireRef { pack: 0, at: 3 }));
    assert_eq!(kept.base, Some(oid(10)));
    assert_eq!(
        plan.commits.get(&oid(1)),
        Some(&EntrySource::Wire(WireRef { pack: 0, at: 0 }))
    );
}

#[test]
fn a_delta_on_a_base_that_may_be_out_of_reach_is_encoded_anew() {
    let (wire, mut plan, parents) = sent();
    let homes = homes(&plan.packs);
    classify(&mut plan, &wire, &parents, &homes, &OrdMap::new(), &OrdSet::new()).unwrap();
    let entry = plan.packs.get(&oid(2)).unwrap()[0];
    assert_eq!(entry.source, EntrySource::Encoded, "its base is not known to be reachable");
}

#[test]
fn an_object_sent_whole_is_not_deltified_against_its_predecessor() {
    let (wire, mut plan, parents) = sent();
    plan.packs.insert(oid(1), vec![encoded(10, Kind::Blob, Some(77))]);
    let homes = homes(&plan.packs);
    classify(&mut plan, &wire, &parents, &homes, &OrdMap::new(), &OrdSet::new()).unwrap();
    let entry = plan.packs.get(&oid(1)).unwrap()[0];
    assert_eq!(entry.source, EntrySource::Wire(WireRef { pack: 0, at: 2 }));
    assert_eq!(entry.base, None);
}

#[test]
fn what_is_asked_of_ancestry_follows_from_the_deltas() {
    let (wire, plan, parents) = sent();
    let deltas = wire_deltas(&wire, &plan.packs).unwrap();
    assert_eq!(deltas, vec![(oid(2), oid(10))]);
    let homes = homes(&plan.packs);
    assert!(bases_without_home(&deltas, &homes).is_empty());
    let asked = queries(&deltas, &homes, &OrdMap::new());
    assert_eq!(asked, vec![Query { target: oid(2), home: oid(1) }]);
    assert!(stored_homes(&asked, &parents).is_empty());

    let foreign = [(oid(2), oid(90))];
    assert_eq!(bases_without_home(&foreign, &homes), vec![oid(90)]);
    let older = older_homes(&map(vec![(90, meta(80, None))]));
    let asked = queries(&foreign, &homes, &older);
    assert_eq!(asked, vec![Query { target: oid(2), home: oid(80) }]);
    assert_eq!(stored_homes(&asked, &parents), vec![oid(80)]);
    assert_eq!(delta_base(&wire, WireRef { pack: 0, at: 3 }), Ok(Some(oid(10))));
    assert_eq!(delta_base(&wire, WireRef { pack: 0, at: 0 }), Ok(None));
    assert_eq!(delta_base(&wire, WireRef { pack: 0, at: 9 }), Err(Error::NoSuchEntry));
}

#[test]
fn a_tip_is_connected_where_everything_it_needs_is_here_or_stored() {
    let push = map(vec![
        (1, commit(11, &[50])),
        (11, tree(&[20, 21])),
        (20, ObjectRefs::Blob),
        (2, commit(12, &[])),
    ]);
    let walked = walk(oid(1), &push);
    assert!(walked.visited.contains(&oid(11)) && walked.visited.contains(&oid(20)));
    let mut outside = walked.store_checks.clone();
    outside.sort_by_key(|oid| oid.to_bytes());
    assert_eq!(outside, vec![oid(21), oid(50)]);
    let mut found = map(vec![(21, meta(9, None))]);
    assert!(!all_recorded(&walked.store_checks, &found));
    found.insert(oid(50), meta(9, None));
    assert!(all_recorded(&walked.store_checks, &found));
    found.insert(
        oid(50),
        ObjectMeta { kind: Kind::Commit, location: None, object_seq: None },
    );
    assert!(!all_recorded(&walked.store_checks, &found), "numbered is not stored");
}

#[test]
fn commits_of_connected_tips_are_stored_and_the_rest_are_failures() {
    let push = map(vec![(1, commit(11, &[])), (2, commit(12, &[])), (11, tree(&[]))]);
    let update = |name: &str, n| RefUpdate {
        refname: name.to_string(),
        old_id: oid(0),
        new_id: oid(n),
    };
    let updates = [update("refs/heads/a", 1), update("refs/heads/b", 2), update("refs/x", 1)];
    let visited = |ids: &[u8]| {
        let mut set = OrdSet::new();
        for n in ids {
            set.insert(oid(*n));
        }
        set
    };
    let results = [(true, visited(&[1, 11])), (false, visited(&[2]))];
    let (connected, failures) = sort_connectivity(&updates, &[0, 1], &results, &push);
    assert!(connected.contains(&oid(1)) && !connected.contains(&oid(11)));
    assert!(!connected.contains(&oid(2)));
    assert!(failures.contains(&"refs/heads/b".to_string()));
    assert_eq!(failures.len(), 1);
}
