use pippin::commit::{Commit, CommitMeta, EltChange, ExtraMeta};
use pippin::detail::loading::LoadedFiles;
use pippin::detail::part::{DummyPartIO, Partition};
use pippin::elt::Element;
use pippin::error::Error;
use pippin::idmap::IdMap;
use pippin::ids::PartId;
use pippin::readwrite::commitlog::{read_commits, write_commit};
use pippin::readwrite::header::{read_head, FileHeader, FileType, UserData};
use pippin::readwrite::snapshot::read_snapshot;
use pippin::state::PartState;
use pippin::sum::Sum;

fn fresh(num: u64) -> Partition<DummyPartIO> {
    Partition::create(DummyPartIO::new(PartId::from_num(num)), "history", vec![]).unwrap()
}

/// Pushes a commit that leads from the state `parents[0]` to that state
/// with one more element, with the given parents, and gives the sum of the
/// state that it leads to.
fn grow(part: &mut Partition<DummyPartIO>, parents: Vec<Sum>, text: &str, number: u32) -> Sum {
    let base = part.state(&parents[0]).unwrap();
    let mut state = base.clone_mut();
    let id = state.insert(Element::from_text(text)).unwrap();
    let mut changes = IdMap::new();
    changes.insert(id.id, EltChange::insertion(Element::from_text(text)));
    let meta = CommitMeta::new_explicit(number, 1000 + number as i64, ExtraMeta::Empty);
    let state = PartState::from_mut(state, parents.clone(), meta.duplicate());
    let sum = *state.statesum();
    assert_eq!(part.push_commit(Commit::new_explicit(sum, parents, changes, meta)), Ok(()));
    sum
}

#[test]
fn tips_are_the_states_without_children() {
    let mut part = fresh(41);
    let root = Sum::zero();
    assert_eq!(part.tips, vec![root]);
    let a = grow(&mut part, vec![root], "a", 1);
    assert_eq!(part.tips, vec![a]);
    let b = grow(&mut part, vec![a], "b", 2);
    let c = grow(&mut part, vec![a], "c", 3);
    assert_eq!(part.tips, vec![b, c]);
    let d = grow(&mut part, vec![root], "d", 4);
    assert_eq!(part.tips, vec![b, c, d]);
    let m = grow(&mut part, vec![b, d], "m", 5);
    assert_eq!(part.tips, vec![c, m]);
    // every tip is known and no parent of a known state; every other state is one
    let mut walk = part.states();
    let mut sums = vec![];
    let mut parents = vec![];
    while let Some(item) = walk.next() {
        sums.push(*item.state().statesum());
        parents.extend(item.state().parents().iter().cloned());
        assert_eq!(item.is_tip(), part.tips.contains(item.state().statesum()));
    }
    for s in &sums {
        assert_eq!(part.tips.contains(s), !parents.contains(s));
    }
    assert_eq!(sums.len(), 6);
    assert_eq!(part.unsaved.len(), 5);
    assert_eq!(part.ss_policy.commits, 5);
    assert_eq!(part.ss_policy.edits, 5);
}

#[test]
fn common_ancestor_in_a_line() {
    let mut part = fresh(42);
    let root = Sum::zero();
    let a = grow(&mut part, vec![root], "a", 1);
    let b = grow(&mut part, vec![a], "b", 2);
    let c = grow(&mut part, vec![b], "c", 3);
    let d = grow(&mut part, vec![b], "d", 4);
    let e = grow(&mut part, vec![d], "e", 5);
    // the latest: `b`, not `a` or the root, which are ancestors of both too
    assert_eq!(part.latest_common_ancestor(&c, &e), Ok(b));
    assert_eq!(part.latest_common_ancestor(&e, &c), Ok(b));
    assert_eq!(part.latest_common_ancestor(&d, &e), Ok(d));
    assert_eq!(part.latest_common_ancestor(&e, &d), Ok(d));
    assert_eq!(part.latest_common_ancestor(&a, &e), Ok(a));
    assert_eq!(part.latest_common_ancestor(&c, &c), Ok(c));
}

#[test]
fn common_ancestor_behind_a_merge() {
    // g <- c <- q, g <- c <- k1, p with the parents g and q, p <- k2:
    // the walk from k2 comes to g, a parent of p, before it comes to c
    let mut part = fresh(43);
    let g = Sum::zero();
    let c = grow(&mut part, vec![g], "c", 1);
    let q = grow(&mut part, vec![c], "q", 2);
    let k1 = grow(&mut part, vec![c], "k1", 3);
    let p = grow(&mut part, vec![g, q], "p", 4);
    let k2 = grow(&mut part, vec![p], "k2", 5);
    assert_eq!(part.latest_common_ancestor(&k1, &k2), Ok(g));
    assert_eq!(part.latest_common_ancestor(&k2, &k1), Ok(c));
    // and to g before it comes to q, which is an ancestor of k2 itself
    assert_eq!(part.latest_common_ancestor(&q, &k2), Ok(g));
    assert_eq!(part.latest_common_ancestor(&k2, &q), Ok(q));
}

#[test]
fn common_ancestor_among_equally_near_ones() {
    // g <- x, g <- y, k1 with the parents y and x, k2 with the parents x and y:
    // the walk looks at the parents of a state in their order
    let mut part = fresh(47);
    let g = Sum::zero();
    let x = grow(&mut part, vec![g], "x", 1);
    let y = grow(&mut part, vec![g], "y", 2);
    let k1 = grow(&mut part, vec![y, x], "k1", 3);
    let k2 = grow(&mut part, vec![x, y], "k2", 3);
    assert_eq!(part.latest_common_ancestor(&k1, &k2), Ok(x));
    assert_eq!(part.latest_common_ancestor(&k2, &k1), Ok(y));
    // nearer states come first: w <- x, k3 with the parents w and y
    let w = grow(&mut part, vec![x], "w", 2);
    let k3 = grow(&mut part, vec![w, y], "k3", 4);
    assert_eq!(part.latest_common_ancestor(&k1, &k3), Ok(y));
    assert_eq!(part.latest_common_ancestor(&k3, &k3), Ok(k3));
    let unknown = Sum::calculate(b"not a state");
    assert_eq!(
        part.latest_common_ancestor(&k1, &unknown),
        Err(Error::Other("unable to find a common ancestor"))
    );
}

#[test]
fn common_ancestor_of_a_state_and_its_ancestor() {
    // g <- a <- b <- c, in one line: the older of two is the common ancestor
    let mut part = fresh(48);
    let g = Sum::zero();
    let a = grow(&mut part, vec![g], "a", 1);
    let b = grow(&mut part, vec![a], "b", 2);
    let c = grow(&mut part, vec![b], "c", 3);
    assert_eq!(part.latest_common_ancestor(&c, &a), Ok(a));
    assert_eq!(part.latest_common_ancestor(&a, &c), Ok(a));
    assert_eq!(part.latest_common_ancestor(&g, &c), Ok(g));
    assert_eq!(part.latest_common_ancestor(&c, &g), Ok(g));
    assert_eq!(part.latest_common_ancestor(&b, &b), Ok(b));
    // a fork beside the line of the second state does not matter
    let d = grow(&mut part, vec![a], "d", 2);
    let m = grow(&mut part, vec![d, c], "m", 4);
    assert_eq!(part.latest_common_ancestor(&m, &c), Ok(c));
    assert_eq!(part.latest_common_ancestor(&m, &b), Ok(b));
    assert_eq!(part.latest_common_ancestor(&d, &c), Ok(a));
}

#[test]
fn files_that_are_handed_to_the_provider() {
    let pid = PartId::from_num(44);
    let io = DummyPartIO::new(pid);
    let mut part = Partition::create(io, "files", vec![UserData::Text("made".to_string())]).unwrap();
    // the provider keeps what was written last: snapshot 0
    let written = part.io.buf.clone();
    let (head, pos) = read_head(&written).unwrap();
    assert_eq!(
        head,
        FileHeader {
            ftype: FileType::Snapshot(0),
            name: "files".to_string(),
            part_id: Some(pid),
            user: vec![UserData::Text("made".to_string())],
        }
    );
    assert_eq!(read_snapshot(&written, pos, pid), Ok(PartState::new(pid)));
    assert_eq!(written.len(), pos + 112);
    let mut state = part.tip().unwrap().clone_mut();
    state.insert(Element::from_text("x")).unwrap();
    part.push_state(state, ExtraMeta::Text("first".to_string())).unwrap();
    let commit = part.unsaved[0].clone();
    assert_eq!(commit.meta().extra(), &ExtraMeta::Text("first".to_string()));
    let start = part.log_file_start(vec![UserData::Data(vec![7])]).unwrap();
    let (head, pos) = read_head(&start).unwrap();
    assert_eq!(head.ftype, FileType::CommitLog(0));
    assert_eq!(head.user, vec![UserData::Data(vec![7])]);
    assert_eq!(&start[pos..], b"COMMIT LOG\x00\x00\x00\x00\x00\x00");
    assert_eq!(part.write(true, vec![]), Ok(true));
    // the commit was written last, in one piece
    let mut expected = vec![];
    write_commit(&commit, &mut expected).unwrap();
    assert_eq!(part.io.buf, expected);
    assert_eq!(read_commits(&part.io.buf, 0), (vec![commit], None));
    let file = part.snapshot_file(vec![]).unwrap();
    let (head, pos) = read_head(&file).unwrap();
    assert_eq!(head.name, "files");
    let read = read_snapshot(&file, pos, pid).unwrap();
    assert_eq!(read.elt_map(), part.tip().unwrap().elt_map());
    assert_eq!(read.statesum(), part.tip().unwrap().elt_sum());
    assert_eq!(part.write_snapshot(vec![]), Ok(()));
    assert_eq!(part.io.buf.len(), file.len());
    assert_eq!(part.ss_num, 1);
}

#[test]
fn loading_from_the_data_of_files() {
    let pid = PartId::from_num(45);
    let mut part = Partition::create(DummyPartIO::new(pid), "data", vec![]).unwrap();
    let snapshot0 = part.io.buf.clone();
    let start = part.log_file_start(vec![]).unwrap();
    let mut log = start.clone();
    for t in ["a", "b"] {
        let mut state = part.tip().unwrap().clone_mut();
        state.insert(Element::from_text(t)).unwrap();
        part.push_state(state, ExtraMeta::Empty).unwrap();
        write_commit(part.unsaved.back().unwrap(), &mut log).unwrap();
    }
    let tip = *part.tip().unwrap().statesum();
    let snapshot1 = part.snapshot_file(vec![]).unwrap();

    // the latest state, from snapshot 0 and its log
    let files = LoadedFiles {
        ss_len: 1,
        first: 0,
        snapshots: vec![Some(snapshot0.clone())],
        logs: vec![vec![log.clone()]],
    };
    let mut loaded = Partition::open(DummyPartIO::new(pid)).unwrap();
    let head = loaded.load_files(&files, false).unwrap();
    assert_eq!(head.ftype, FileType::CommitLog(0));
    assert_eq!(loaded.tips, vec![tip]);
    assert_eq!(loaded.num_states(), 3);
    assert_eq!(loaded.ss_num, 0);
    assert_eq!((loaded.ss_policy.commits, loaded.ss_policy.edits), (2, 2));
    assert_eq!(loaded.repo_name, "data");

    // without any snapshot, the log is replayed on the blank state
    let files = LoadedFiles {
        ss_len: 1,
        first: 0,
        snapshots: vec![None],
        logs: vec![vec![log.clone()]],
    };
    let mut loaded = Partition::open(DummyPartIO::new(pid)).unwrap();
    loaded.load_files(&files, false).unwrap();
    assert_eq!(loaded.tips, vec![tip]);
    assert_eq!(loaded.ss_policy.commits, 2);

    // from an older snapshot: the number of the snapshot is the last, and a
    // snapshot is asked for
    let files = LoadedFiles {
        ss_len: 3,
        first: 0,
        snapshots: vec![Some(snapshot0.clone()), None, None],
        logs: vec![vec![log.clone()], vec![], vec![start.clone()]],
    };
    let mut loaded = Partition::open(DummyPartIO::new(pid)).unwrap();
    let head = loaded.load_files(&files, false).unwrap();
    assert_eq!(head.ftype, FileType::CommitLog(0));
    assert_eq!(loaded.ss_num, 2);
    assert_eq!((loaded.ss_policy.commits, loaded.ss_policy.edits), (1000, 2));

    // all history: the snapshot of the tip is another state than the tip,
    // with the same elements and without parents
    let files = LoadedFiles {
        ss_len: 2,
        first: 0,
        snapshots: vec![Some(snapshot0.clone()), Some(snapshot1.clone())],
        logs: vec![vec![log.clone()], vec![]],
    };
    let mut loaded = Partition::open(DummyPartIO::new(pid)).unwrap();
    let head = loaded.load_files(&files, true).unwrap();
    assert_eq!(head.ftype, FileType::Snapshot(0));
    assert_eq!(loaded.num_states(), 4);
    assert_eq!(loaded.tips.len(), 2);
    assert!(loaded.merge_required());
    assert_eq!(loaded.ss_num, 1);
    // the commits and changes of the last snapshot count
    assert_eq!((loaded.ss_policy.commits, loaded.ss_policy.edits), (0, 0));
    let rooted = loaded.tips.iter().find(|t| **t != tip).unwrap();
    assert_eq!(loaded.state(rooted).unwrap().elt_map(), loaded.state(&tip).unwrap().elt_map());
    assert!(loaded.state(rooted).unwrap().parents().is_empty());

    // nothing but a log without commits and without a snapshot: the blank state
    let files = LoadedFiles {
        ss_len: 1,
        first: 0,
        snapshots: vec![None],
        logs: vec![vec![start.clone()]],
    };
    let mut loaded = Partition::open(DummyPartIO::new(pid)).unwrap();
    loaded.load_files(&files, false).unwrap();
    assert_eq!(loaded.tips, vec![Sum::zero()]);
    // no file at all
    let files = LoadedFiles { ss_len: 1, first: 0, snapshots: vec![None], logs: vec![vec![]] };
    let mut loaded = Partition::open(DummyPartIO::new(pid)).unwrap();
    assert_eq!(loaded.load_files(&files, false), Err(Error::Other("no data loaded")));
    let mut loaded = Partition::open(DummyPartIO::new(pid)).unwrap();
    assert_eq!(loaded.load_files(&files, true), Err(Error::Other("no data loaded")));
    // a provider without files
    let mut loaded = Partition::open(DummyPartIO::new(pid)).unwrap();
    assert_eq!(loaded.read_files(true).err(), Some(Error::Io("no snapshot files found")));
    assert_eq!(loaded.load(true).err(), Some(Error::Io("no snapshot files found")));
}

#[test]
fn changes_name_what_they_bring() {
    let pid = PartId::from_num(46);
    let e = Element::from_text("e");
    assert_eq!(EltChange::insertion(e.clone()).element(), Some(&e));
    assert_eq!(EltChange::replacement(e.clone()).element(), Some(&e));
    assert_eq!(EltChange::deletion().element(), None);
    assert_eq!(EltChange::deletion().moved_id(), None);
    assert_eq!(EltChange::insertion(e.clone()).moved_id(), None);
    assert_eq!(EltChange::moved(pid.elt_id(3), true), EltChange::MovedOut(pid.elt_id(3)));
    assert_eq!(EltChange::moved(pid.elt_id(3), false), EltChange::Moved(pid.elt_id(3)));
    assert_eq!(EltChange::moved(pid.elt_id(3), true).moved_id(), Some(pid.elt_id(3)));
    assert_eq!(EltChange::moved(pid.elt_id(3), false).moved_id(), Some(pid.elt_id(3)));
    assert_eq!(EltChange::moved(pid.elt_id(3), false).element(), None);
    let c = EltChange::replacement(e);
    assert_eq!(c.duplicate(), c);
    assert_eq!(ExtraMeta::Text("t".to_string()).duplicate(), ExtraMeta::Text("t".to_string()));
    let m = CommitMeta::blank();
    assert_eq!((m.number(), m.timestamp(), m.extra()), (0, 0, &ExtraMeta::Empty));
    let mut name = String::new();
    let head = FileHeader {
        ftype: FileType::Snapshot(0),
        name: "n".to_string(),
        part_id: None,
        user: vec![],
    };
    assert_eq!(Partition::<DummyPartIO>::verify_head(&head, &mut name, pid), Ok(()));
    assert_eq!(name, "n");
}
