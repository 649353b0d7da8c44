use std::collections::BTreeMap;
use hashindexed::KeyComparator;

use pippin::commit::{Commit, CommitMeta, EltChange, ExtraMeta};
use pippin::control::{Control, DefaultControl, DefaultSnapshot, SnapshotPolicy as Policy};
use pippin::detail::index::SumKey;
use pippin::detail::part::{
    key_bytes, verify_head, DummyPartIO, PartIO, Partition, SnapshotPolicy,
};
use pippin::elt::Element;
use pippin::error::{Error, MatchError, PatchOp};
use pippin::idmap::IdMap;
use pippin::ids::{EltId, PartId};
use pippin::patch::diff_elts;
use pippin::readwrite::commitlog::{start_log, write_commit};
use pippin::readwrite::header::{write_head, FileHeader, FileType, UserData};
use pippin::state::PartState;
use pippin::sum::Sum;

#[derive(Clone, Debug)]
struct MemIO {
    part_id: PartId,
    snapshots: BTreeMap<usize, Vec<u8>>,
    logs: BTreeMap<(usize, usize), Vec<u8>>,
    fail_append: bool,
}

impl MemIO {
    fn new(part_id: PartId) -> MemIO {
        MemIO { part_id, snapshots: BTreeMap::new(), logs: BTreeMap::new(), fail_append: false }
    }
}

impl PartIO for MemIO {
    fn part_id(&self) -> PartId {
        self.part_id
    }
    fn ss_len(&self) -> usize {
        let a = self.snapshots.keys().next_back().map(|k| k + 1).unwrap_or(0);
        let b = self.logs.keys().next_back().map(|k| k.0 + 1).unwrap_or(0);
        a.max(b)
    }
    fn ss_cl_len(&self, ss_num: usize) -> usize {
        self.logs.keys().filter(|k| k.0 == ss_num).map(|k| k.1 + 1).max().unwrap_or(0)
    }
    fn read_ss(&self, ss_num: usize) -> Result<Option<Vec<u8>>, Error> {
        Ok(self.snapshots.get(&ss_num).cloned())
    }
    fn read_ss_cl(&self, ss_num: usize, cl_num: usize) -> Result<Option<Vec<u8>>, Error> {
        Ok(self.logs.get(&(ss_num, cl_num)).cloned())
    }
    fn new_ss(&mut self, ss_num: usize, data: &[u8]) -> Result<bool, Error> {
        if self.snapshots.contains_key(&ss_num) {
            return Ok(false);
        }
        self.snapshots.insert(ss_num, data.to_vec());
        Ok(true)
    }
    fn append_ss_cl(&mut self, ss_num: usize, cl_num: usize, data: &[u8]) -> Result<bool, Error> {
        if self.fail_append {
            return Err(Error::Io("the disk is full"));
        }
        match self.logs.get_mut(&(ss_num, cl_num)) {
            Some(log) => {
                log.extend_from_slice(data);
                Ok(true)
            }
            None => Ok(false),
        }
    }
    fn new_ss_cl(&mut self, ss_num: usize, cl_num: usize, data: &[u8]) -> Result<bool, Error> {
        if self.logs.contains_key(&(ss_num, cl_num)) {
            return Ok(false);
        }
        self.logs.insert((ss_num, cl_num), data.to_vec());
        Ok(true)
    }
}

fn with_elements(part: &mut Partition<MemIO>, texts: &[&str]) {
    let mut state = part.tip().unwrap().clone_mut();
    for t in texts {
        state.insert(Element::from_text(t)).unwrap();
    }
    assert_eq!(part.push_state(state, ExtraMeta::Empty), Ok(true));
}

#[test]
fn state_sum_is_made_of_element_sums_and_metadata_sum() {
    let pid = PartId::from_num(21);
    let mut part = Partition::create(MemIO::new(pid), "sums", vec![]).unwrap();
    assert_eq!(*part.tip().unwrap().statesum(), Sum::zero());
    assert_eq!(*part.tip().unwrap().metasum(), Sum::zero());
    with_elements(&mut part, &["one", "two", "three"]);
    let tip = part.tip().unwrap();
    let expected = Sum::elt_sum(pid.elt_id(0).id, b"one")
        .xor(&Sum::elt_sum(pid.elt_id(1).id, b"two"))
        .xor(&Sum::elt_sum(pid.elt_id(2).id, b"three"));
    assert_eq!(*tip.elt_sum(), expected);
    assert_eq!(*tip.metasum(), tip.meta().sum());
    assert_ne!(*tip.metasum(), Sum::zero());
    assert_eq!(*tip.statesum(), expected.xor(tip.metasum()));
    assert_eq!(tip.meta().number(), 1);
    assert!(tip.meta().timestamp() > 1_600_000_000);
    assert_eq!(tip.parents(), &vec![Sum::zero()]);
    assert_eq!(part.unsaved[0].statesum(), tip.statesum());
    // the checksum of the metadata covers number, time, and the text
    let m = CommitMeta::new_explicit(0x01020304, 5, ExtraMeta::Text("ab".to_string()));
    let bytes = [1, 2, 3, 4, 0, 0, 0, 0, 0, 0, 0, 5, 1, b'a', b'b'];
    assert_eq!(m.sum(), Sum::calculate(&bytes));
    let m = CommitMeta::new_explicit(0, 0, ExtraMeta::Empty);
    assert_eq!(m.sum(), Sum::calculate(&[0u8; 13]));
}

#[test]
fn elements_of_a_state_under_construction() {
    let pid = PartId::from_num(22);
    let mut state = PartState::new(pid).clone_mut();
    assert_eq!(state.part_id(), pid);
    assert_eq!(*state.parent(), Sum::zero());
    assert!(!state.any_avail());
    assert_eq!(state.insert(Element::from_text("a")), Ok(pid.elt_id(0)));
    assert_eq!(state.insert(Element::from_text("b")), Ok(pid.elt_id(1)));
    assert_eq!(state.insert_with_id(pid.elt_id(3), Element::from_text("d")), Ok(()));
    // the first free number is taken
    assert_eq!(state.insert(Element::from_text("c")), Ok(pid.elt_id(2)));
    assert_eq!(state.insert(Element::from_text("e")), Ok(pid.elt_id(4)));
    assert_eq!(state.num_avail(), 5);
    assert_eq!(
        state.insert_with_id(pid.elt_id(3), Element::from_text("x")),
        Err(Error::arg("element identifier is in use"))
    );
    assert_eq!(
        state.insert_with_id(PartId::from_num(23).elt_id(9), Element::from_text("x")),
        Err(Error::arg("element identifier belongs to another partition"))
    );
    let sum_before = *state.elt_sum();
    assert_eq!(state.remove(pid.elt_id(1)), Ok(Element::from_text("b")));
    assert_eq!(*state.elt_sum(), sum_before.xor(&Sum::elt_sum(pid.elt_id(1).id, b"b")));
    assert_eq!(state.remove(pid.elt_id(1)), Err(Error::no_elt("element not found")));
    assert_eq!(state.get(pid.elt_id(1)), Err(Error::no_elt("element not found")));
    assert_eq!(
        state.replace(pid.elt_id(1), Element::from_text("x")),
        Err(Error::no_elt("element not found"))
    );
    assert_eq!(
        state.replace(pid.elt_id(0), Element::from_text("A")),
        Ok(Element::from_text("a"))
    );
    assert_eq!(state.get(pid.elt_id(0)), Ok(&Element::from_text("A")));
    assert!(state.is_avail(pid.elt_id(4)));
    assert!(!state.is_avail(pid.elt_id(5)));
    assert_eq!(state.insert(Element::from_text("again")), Ok(pid.elt_id(1)));
    let ids: Vec<u64> = (0..state.elt_map().len()).map(|i| state.elt_map().id_at(i)).collect();
    assert_eq!(ids, (0..5).map(|n| pid.elt_id(n).id).collect::<Vec<u64>>());
    let expected = ["A", "again", "c", "d", "e"]
        .iter()
        .enumerate()
        .fold(Sum::zero(), |s, (i, t)| s.xor(&Sum::elt_sum(pid.elt_id(i as u32).id, t.as_bytes())));
    assert_eq!(*state.elt_sum(), expected);
}

#[test]
fn payloads_as_text() {
    let e = Element::new(vec![0xE2, 0x82, 0xAC]);
    assert_eq!(e.text(), Ok("€".to_string()));
    assert_eq!(e.data(), &[0xE2, 0x82, 0xAC]);
    assert_eq!(Element::from_text("€"), e);
    assert!(e.same(&e.duplicate()));
    assert!(!e.same(&Element::from_text("e")));
    let bad = Element::new(vec![0xE2, 0x82]);
    assert_eq!(bad.text(), Err(Error::Encoding("payload is not valid UTF-8")));
    let mut buf = vec![1u8];
    e.write_buf(&mut buf);
    assert_eq!(buf, vec![1, 0xE2, 0x82, 0xAC]);
    assert_eq!(e.sum(EltId::from_raw(5)), Sum::elt_sum(5, &[0xE2, 0x82, 0xAC]));
}

#[test]
fn difference_and_its_application() {
    let pid = PartId::from_num(24);
    let mut was = PartState::new(pid).clone_mut();
    for t in ["stays", "goes", "changes"] {
        was.insert(Element::from_text(t)).unwrap();
    }
    let was = PartState::from_mut(was, vec![], CommitMeta::blank());
    let mut now = was.clone_mut();
    now.remove(pid.elt_id(1)).unwrap();
    now.replace(pid.elt_id(2), Element::from_text("changed")).unwrap();
    now.insert_with_id(pid.elt_id(7), Element::from_text("comes")).unwrap();
    let changes = diff_elts(was.elt_map(), now.elt_map());
    let mut expected = IdMap::new();
    expected.insert(pid.elt_id(1).id, EltChange::deletion());
    expected.insert(pid.elt_id(2).id, EltChange::replacement(Element::from_text("changed")));
    expected.insert(pid.elt_id(7).id, EltChange::insertion(Element::from_text("comes")));
    assert_eq!(changes, expected);
    let commit = Commit::from_diff(&was, &now, 1234, ExtraMeta::Text("why".to_string())).unwrap();
    assert_eq!(commit.changes(), &expected);
    assert_eq!(commit.parents(), &vec![*was.statesum()]);
    assert_eq!(commit.meta(), &CommitMeta::new_explicit(1, 1234, ExtraMeta::Text("why".to_string())));
    assert_eq!(commit.num_changes(), 3);
    assert_eq!(commit.first_parent(), was.statesum());
    // the commit leads from the one state to the other
    let made = commit.apply(&was).unwrap();
    assert_eq!(made.elt_map(), now.elt_map());
    assert_eq!(made.statesum(), commit.statesum());
    assert_eq!(made, PartState::from_mut(now.clone(), vec![*was.statesum()], commit.meta().duplicate()));
    // and not from the other state to anything
    assert_eq!(commit.apply(&made), Err(PatchOp::PatchApply));
    assert_eq!(Commit::from_diff(&was, &was.clone_mut(), 0, ExtraMeta::Empty), None);
    // every kind of change that does not apply
    let single = |id: EltId, change: EltChange| {
        let mut changes = IdMap::new();
        changes.insert(id.id, change);
        Commit::new_explicit(Sum::zero(), vec![*was.statesum()], changes, CommitMeta::blank())
    };
    assert_eq!(single(pid.elt_id(9), EltChange::deletion()).apply(&was), Err(PatchOp::PatchApply));
    let e = Element::from_text("x");
    assert_eq!(
        single(pid.elt_id(0), EltChange::insertion(e.clone())).apply(&was),
        Err(PatchOp::PatchApply)
    );
    assert_eq!(
        single(pid.elt_id(9), EltChange::replacement(e.clone())).apply(&was),
        Err(PatchOp::PatchApply)
    );
    assert_eq!(
        single(pid.elt_id(9), EltChange::moved(pid.elt_id(1), true)).apply(&was),
        Err(PatchOp::PatchApply)
    );
    assert_eq!(
        single(PartId::from_num(25).elt_id(9), EltChange::insertion(e)).apply(&was),
        Err(PatchOp::PatchApply)
    );
    // moves: an element that moves out is gone, a further move changes nothing
    let mut moves = IdMap::new();
    moves.insert(pid.elt_id(0).id, EltChange::moved(PartId::from_num(25).elt_id(1), true));
    moves.insert(pid.elt_id(40).id, EltChange::moved(PartId::from_num(25).elt_id(2), false));
    let meta = CommitMeta::new_explicit(1, 5, ExtraMeta::Empty);
    let left = Sum::elt_sum(pid.elt_id(1).id, b"goes").xor(&Sum::elt_sum(pid.elt_id(2).id, b"changes"));
    let commit =
        Commit::new_explicit(left.xor(&meta.sum()), vec![*was.statesum()], moves.clone(), meta);
    let moved = commit.apply(&was).unwrap();
    assert_eq!(moved.num_avail(), 2);
    assert!(!moved.is_avail(pid.elt_id(0)));
    // parents that are not distinct
    let meta = CommitMeta::new_explicit(1, 5, ExtraMeta::Empty);
    let twice = Commit::new_explicit(
        left.xor(&meta.sum()),
        vec![*was.statesum(), *was.statesum()],
        moves,
        meta,
    );
    assert_eq!(twice.apply(&was), Err(PatchOp::PatchApply));
}

#[test]
fn states_by_the_start_of_their_sums() {
    let pid = PartId::from_num(26);
    let mut part = Partition::create(MemIO::new(pid), "keys", vec![]).unwrap();
    with_elements(&mut part, &["x"]);
    let tip = *part.tip().unwrap().statesum();
    let hex = tip.as_string(false);
    assert_eq!(part.state_from_string(&hex).unwrap().statesum(), &tip);
    let spaced = tip.as_string(true).to_lowercase();
    assert_eq!(part.state_from_string(&spaced).unwrap().statesum(), &tip);
    assert_eq!(part.state_from_string(&hex[..8]).unwrap().statesum(), &tip);
    assert_eq!(part.state_from_string("0000 0000").unwrap().statesum(), &Sum::zero());
    let other = if hex.starts_with("12") { "13" } else { "12" };
    assert_eq!(part.state_from_string(other).err(), Some(MatchError::NoMatch));
    assert_eq!(part.state_from_string("xyz").err(), Some(MatchError::NoMatch));
    match part.state_from_string("") {
        Err(MatchError::MultiMatch(a, b)) => {
            let zero = Sum::zero().as_string(false);
            assert!(a != b);
            assert!(a == hex || a == zero);
            assert!(b == hex || b == zero);
        }
        other => panic!("expected several matches, got {:?}", other.map(|_| ())),
    }
    assert_eq!(key_bytes(b" ab c9 Zz\n"), b"ABC9ZZ\n".to_vec());
}

#[test]
fn walk_over_the_states() {
    let pid = PartId::from_num(27);
    let mut part = Partition::create(MemIO::new(pid), "walk", vec![]).unwrap();
    with_elements(&mut part, &["x"]);
    with_elements(&mut part, &["y"]);
    let mut walk = part.states();
    assert_eq!(walk.size_hint(), 3);
    let mut seen = vec![];
    let mut tips = 0;
    loop {
        match walk.next() {
            Some(item) => {
                seen.push(*item.state().statesum());
                if item.is_tip() {
                    tips += 1;
                    assert_eq!(item.state().num_avail(), 2);
                }
            }
            None => break,
        }
    }
    assert_eq!(walk.size_hint(), 0);
    assert_eq!(seen.len(), 3);
    assert_eq!(tips, 1);
    seen.sort_by_key(|s| s.to_bytes());
    seen.dedup();
    assert_eq!(seen.len(), 3);
    assert!(seen.contains(&Sum::zero()));
}

#[test]
fn policy_for_snapshots() {
    let mut p = SnapshotPolicy::new();
    assert_eq!(p, SnapshotPolicy { commits: 0, edits: 0, weight: 5, limit: 150 });
    assert!(!p.snapshot());
    p.add_commits(30);
    assert!(!p.snapshot());
    p.add_edits(1);
    assert!(p.snapshot());
    p.reset();
    assert_eq!((p.commits, p.edits), (0, 0));
    p.add_edits(150);
    assert!(!p.snapshot());
    p.add_commits(1);
    assert!(p.snapshot());
    p.reset();
    p.require();
    assert_eq!(p.commits, 1000);
    assert!(p.snapshot());
    p.add_commits(usize::MAX);
    p.add_edits(usize::MAX);
    p.add_edits(3);
    assert_eq!((p.commits, p.edits), (usize::MAX, usize::MAX));
    assert!(p.snapshot());
    let mut own = SnapshotPolicy::with_limits(1, 2);
    own.add_commits(2);
    assert!(!own.snapshot());
    own.add_edits(1);
    assert!(own.snapshot());
    let mut big = SnapshotPolicy::with_limits(usize::MAX, usize::MAX);
    big.add_commits(1);
    assert!(!big.snapshot());
    big.add_edits(1);
    assert!(big.snapshot());

    let mut d = DefaultSnapshot::new();
    assert!(!d.want_snapshot());
    d.count(30, 0);
    assert_eq!(d.counter, 150);
    assert!(!d.want_snapshot());
    d.count(0, 1);
    assert!(d.want_snapshot());
    Policy::reset(&mut d);
    assert_eq!(d.counter, 0);
    d.force_snapshot();
    assert_eq!(d.counter, 1000);
    assert!(d.want_snapshot());
    d.count(usize::MAX, usize::MAX);
    assert_eq!(d.counter, usize::MAX);
    let mut as_policy: SnapshotPolicy = SnapshotPolicy::new();
    Policy::count(&mut as_policy, 31, 0);
    assert!(Policy::want_snapshot(&as_policy));
    Policy::reset(&mut as_policy);
    Policy::force_snapshot(&mut as_policy);
    assert_eq!(as_policy.commits, 1000);
}

#[test]
fn policy_of_a_partition_can_be_replaced() {
    let pid = PartId::from_num(28);
    let mut part = Partition::create(MemIO::new(pid), "policy", vec![]).unwrap();
    part.set_policy(SnapshotPolicy::with_limits(1, 1));
    with_elements(&mut part, &["x"]);
    assert_eq!(part.ss_num, 0);
    assert_eq!(part.write(true, vec![]), Ok(true));
    assert_eq!(part.ss_num, 0);
    assert_eq!(part.write(false, vec![]), Ok(false));
    assert_eq!(part.ss_num, 1);
    assert_eq!(part.ss_policy, SnapshotPolicy::with_limits(1, 1));
}

#[test]
fn default_control() {
    let mut control = DefaultControl::new(DummyPartIO::new(PartId::from_num(3)));
    assert_eq!(control.io().part_id, PartId::from_num(3));
    control.io_mut().part_id = PartId::from_num(4);
    assert_eq!(Control::io(&control).part_id(), PartId::from_num(4));
    assert!(!control.snapshot_policy().want_snapshot());
    control.ss_policy.force_snapshot();
    assert!(control.snapshot_policy().want_snapshot());
    let header = FileHeader {
        ftype: FileType::Snapshot(0),
        name: "n".to_string(),
        part_id: None,
        user: vec![],
    };
    assert_eq!(control.make_user_data(&header), Ok(vec![]));
    assert_eq!(control.read_header(&header), Ok(()));
    assert_eq!(control.unwrap_io().part_id, PartId::from_num(4));
}

#[test]
fn headers_are_checked_against_the_partition() {
    let pid = PartId::from_num(29);
    let head = FileHeader {
        ftype: FileType::Snapshot(0),
        name: "repo".to_string(),
        part_id: Some(pid),
        user: vec![],
    };
    let mut name = String::new();
    assert_eq!(verify_head(&head, &mut name, pid), Ok(()));
    assert_eq!(name, "repo");
    assert_eq!(verify_head(&head, &mut name, pid), Ok(()));
    let mut other = "other".to_string();
    assert_eq!(
        verify_head(&head, &mut other, pid),
        Err(Error::Other("repository name does not match when loading (wrong repo?)"))
    );
    assert_eq!(other, "other");
    let mut name = String::new();
    assert_eq!(
        verify_head(&head, &mut name, PartId::from_num(30)),
        Err(Error::Other("partition identifier differs from previous value"))
    );
    assert_eq!(name, "repo");
    let anywhere = FileHeader { part_id: None, ..head.clone() };
    assert_eq!(verify_head(&anywhere, &mut name, PartId::from_num(30)), Ok(()));

    let mut part = Partition::open(MemIO::new(pid)).unwrap();
    assert_eq!(part.set_repo_name("repo"), Ok(()));
    assert_eq!(part.set_repo_name("repo"), Ok(()));
    assert_eq!(
        part.set_repo_name("another"),
        Err(Error::Other("repository name does not match when loading (wrong repo?)"))
    );
    assert_eq!(part.get_repo_name(), Ok("repo".to_string()));
    assert_eq!(part.part_id(), pid);
}

#[test]
fn creation_and_loading_can_fail() {
    let pid = PartId::from_num(31);
    assert_eq!(
        Partition::create(MemIO::new(pid), "", vec![]).err(),
        Some(Error::arg("the name of a repository is not empty and holds no NUL"))
    );
    assert_eq!(
        Partition::create(MemIO::new(PartId { id: 5 }), "x", vec![]).err(),
        Some(Error::arg("invalid partition identifier"))
    );
    assert_eq!(
        Partition::open(MemIO::new(PartId { id: 0 })).err(),
        Some(Error::arg("invalid partition identifier"))
    );
    let part = Partition::create(MemIO::new(pid), "x", vec![UserData::Text("u".to_string())]).unwrap();
    let io = part.unwrap_io();
    assert_eq!(
        Partition::create(io.clone(), "x", vec![]).err(),
        Some(Error::Io("snapshot already exists"))
    );
    // nothing to load
    let mut empty = Partition::open(MemIO::new(pid)).unwrap();
    assert_eq!(empty.load(false).err(), Some(Error::Io("no snapshot files found")));
    assert_eq!(
        empty.get_repo_name(),
        Err(Error::Other("no snapshot found for first partition"))
    );
    assert_eq!(empty.write(false, vec![]), Ok(false));
    // files of another repository, and of another partition
    let mut named = Partition::open(io.clone()).unwrap();
    named.set_repo_name("y").unwrap();
    assert_eq!(
        named.load(true).err(),
        Some(Error::Other("repository name does not match when loading (wrong repo?)"))
    );
    let mut foreign = io.clone();
    foreign.part_id = PartId::from_num(32);
    let mut part = Partition::open(foreign).unwrap();
    assert_eq!(
        part.load(false).err(),
        Some(Error::Other("partition identifier differs from previous value"))
    );
    // the name is found in the files
    let mut part = Partition::open(io).unwrap();
    assert_eq!(part.get_repo_name(), Ok("x".to_string()));
    let head = part.load(false).unwrap();
    assert_eq!(head.user, vec![UserData::Text("u".to_string())]);
    assert_eq!(head.ftype, FileType::Snapshot(0));
    assert!(part.is_ready());
}

#[test]
fn replay_of_a_log_that_does_not_fit() {
    let pid = PartId::from_num(33);
    let part = Partition::create(MemIO::new(pid), "r", vec![]).unwrap();
    let mut io = part.unwrap_io();
    // a commit on the blank state that names the wrong sum
    let mut changes = IdMap::new();
    changes.insert(pid.elt_id(0).id, EltChange::insertion(Element::from_text("x")));
    let wrong = Commit::new_explicit(
        Sum::load(&[3u8; 32]),
        vec![Sum::zero()],
        changes,
        CommitMeta::new_explicit(1, 1, ExtraMeta::Empty),
    );
    let header = FileHeader {
        ftype: FileType::CommitLog(0),
        name: "r".to_string(),
        part_id: Some(pid),
        user: vec![],
    };
    let mut log = vec![];
    write_head(&header, &mut log).unwrap();
    start_log(&mut log).unwrap();
    write_commit(&wrong, &mut log).unwrap();
    io.logs.insert((0, 0), log);
    let mut part = Partition::open(io).unwrap();
    assert_eq!(
        part.load(false).err(),
        Some(Error::replay("a commit does not lead from its parent to the state that it names"))
    );
}

#[test]
fn replay_takes_commits_in_any_order_and_leaves_orphans() {
    let pid = PartId::from_num(34);
    let mut part = Partition::create(MemIO::new(pid), "r", vec![]).unwrap();
    with_elements(&mut part, &["a"]);
    with_elements(&mut part, &["b"]);
    with_elements(&mut part, &["c"]);
    let tip = *part.tip().unwrap().statesum();
    let commits: Vec<Commit> = part.unsaved.iter().cloned().collect();
    let mut io = part.unwrap_io();
    let header = FileHeader {
        ftype: FileType::CommitLog(0),
        name: "r".to_string(),
        part_id: Some(pid),
        user: vec![],
    };
    let mut orphan_changes = IdMap::new();
    orphan_changes.insert(pid.elt_id(9).id, EltChange::deletion());
    let orphan = Commit::new_explicit(
        Sum::load(&[4u8; 32]),
        vec![Sum::load(&[5u8; 32])],
        orphan_changes,
        CommitMeta::new_explicit(9, 9, ExtraMeta::Empty),
    );
    let mut log = vec![];
    write_head(&header, &mut log).unwrap();
    start_log(&mut log).unwrap();
    // newest first, an orphan, and one commit twice
    write_commit(&commits[2], &mut log).unwrap();
    write_commit(&orphan, &mut log).unwrap();
    write_commit(&commits[1], &mut log).unwrap();
    write_commit(&commits[0], &mut log).unwrap();
    write_commit(&commits[1], &mut log).unwrap();
    io.logs.insert((0, 0), log);
    let mut part = Partition::open(io).unwrap();
    part.load(false).unwrap();
    assert_eq!(part.num_states(), 4);
    assert_eq!(part.tips, vec![tip]);
    assert_eq!(part.tip().unwrap().num_avail(), 3);
    // the commits that were read count, and the changes that were applied
    assert_eq!(part.ss_policy.commits, 5);
    assert_eq!(part.ss_policy.edits, 3);
    assert_eq!(part.unsaved.len(), 0);
}

#[test]
fn writing_that_fails_keeps_the_commits() {
    let pid = PartId::from_num(35);
    let mut part = Partition::create(MemIO::new(pid), "w", vec![]).unwrap();
    with_elements(&mut part, &["a"]);
    with_elements(&mut part, &["b"]);
    part.io.fail_append = true;
    assert_eq!(part.write(false, vec![]), Err(Error::Io("the disk is full")));
    assert_eq!(part.unsaved.len(), 2);
    part.io.fail_append = false;
    assert_eq!(part.write(true, vec![]), Ok(true));
    assert_eq!(part.unsaved.len(), 0);
    // the log that could not be filled is left, and a new one was made
    assert_eq!(part.io.logs.len(), 2);
    assert_eq!(part.write(true, vec![]), Ok(false));
    assert!(!part.unload(false) || part.unsaved.is_empty());
    let io = part.unwrap_io();
    let mut part = Partition::open(io).unwrap();
    part.load(false).unwrap();
    assert_eq!(part.tip().unwrap().num_avail(), 2);
    with_elements(&mut part, &["c"]);
    assert!(!part.unload(false));
    assert!(part.is_loaded());
    assert!(part.unload(true));
    assert!(!part.is_loaded());
    assert_eq!(part.num_states(), 0);
}

#[test]
fn loading_falls_back_to_an_older_snapshot() {
    let pid = PartId::from_num(36);
    let mut part = Partition::create(MemIO::new(pid), "f", vec![]).unwrap();
    with_elements(&mut part, &["a"]);
    part.write(true, vec![]).unwrap();
    part.write_snapshot(vec![]).unwrap();
    assert_eq!(part.ss_num, 1);
    let mut io = part.unwrap_io();
    io.snapshots.remove(&1);
    // snapshot 1 is missing; a log of it tells that it was there
    let header = FileHeader {
        ftype: FileType::CommitLog(0),
        name: "f".to_string(),
        part_id: Some(pid),
        user: vec![],
    };
    let mut log = vec![];
    write_head(&header, &mut log).unwrap();
    start_log(&mut log).unwrap();
    io.logs.insert((1, 0), log);
    let mut part = Partition::open(io).unwrap();
    part.load(false).unwrap();
    assert_eq!(part.ss_num, 1);
    assert_eq!(part.tip().unwrap().num_avail(), 1);
    // an older snapshot was used: a new one is due
    assert_eq!(part.ss_policy.commits, 1000);
    assert!(part.ss_policy.snapshot());
}

#[test]
fn the_provider_without_files() {
    let pid = PartId::from_num(61);
    let mut io = DummyPartIO::new(pid);
    assert_eq!(io.part_id(), pid);
    assert_eq!(io.ss_len(), 0);
    assert_eq!(io.ss_cl_len(0), 0);
    assert_eq!(io.ss_cl_len(5), 0);
    assert_eq!(io.read_ss(0), Ok(None));
    assert_eq!(io.read_ss_cl(0, 0), Ok(None));
    assert_eq!(io.new_ss(3, b"snapshot"), Ok(true));
    assert_eq!(io.buf, b"snapshot".to_vec());
    assert_eq!(io.new_ss_cl(3, 0, b"log"), Ok(true));
    assert_eq!(io.buf, b"log".to_vec());
    // nothing is appended to: what was kept is lost
    assert_eq!(io.append_ss_cl(3, 0, b"more"), Ok(true));
    assert_eq!(io.buf, b"more".to_vec());
    assert_eq!(io.part_id(), pid);
    assert_eq!(io.read_ss(3), Ok(None));
    assert_eq!(io.ss_len(), 0);
    // so there is nothing to load
    let mut part = Partition::open(io).unwrap();
    assert!(part.read_files(false).is_err());
    assert!(part.read_files(true).is_err());
    assert_eq!(part.load(false), Err(Error::Io("no snapshot files found")));
    assert_eq!(part.load(true), Err(Error::Io("no snapshot files found")));
    assert!(!part.is_loaded());
}

#[test]
fn states_are_indexed_by_their_sums() {
    let state = PartState::new(PartId::from_num(62));
    assert_eq!(SumKey::extract_key(&state), state.statesum());
    let mut changed = state.clone_mut();
    changed.insert(Element::from_text("e")).unwrap();
    let meta = CommitMeta::new_explicit(1, 5, ExtraMeta::Empty);
    let next = PartState::from_mut(changed, vec![*state.statesum()], meta);
    assert_eq!(SumKey::extract_key(&next), next.statesum());
    assert_ne!(SumKey::extract_key(&next), SumKey::extract_key(&state));
}
