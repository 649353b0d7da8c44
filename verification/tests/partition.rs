use std::collections::BTreeMap;

use pippin::commit::ExtraMeta;
use pippin::detail::part::{DummyPartIO, PartIO, Partition};
use pippin::elt::Element;
use pippin::error::{Error, PatchOp, TipError};
use pippin::ids::PartId;
use pippin::sum::Sum;

/// Keeps the files of a partition in memory.
#[derive(Clone, Debug)]
struct MemIO {
    part_id: PartId,
    snapshots: BTreeMap<usize, Vec<u8>>,
    logs: BTreeMap<(usize, usize), Vec<u8>>,
}

impl MemIO {
    fn new(part_id: PartId) -> MemIO {
        MemIO { part_id, snapshots: BTreeMap::new(), logs: BTreeMap::new() }
    }
}

impl PartIO for MemIO {
    fn part_id(&self) -> PartId {
        self.part_id
    }
    fn ss_len(&self) -> usize {
        let a = self.snapshots.keys().next_back().map(|k| k + 1).unwrap_or(0);
        let b = self.logs.keys().next_back().map(|k| k.0 + 1).unwrap_or(0);
        a.max(b)
    }
    fn ss_cl_len(&self, ss_num: usize) -> usize {
        self.logs.keys().filter(|k| k.0 == ss_num).map(|k| k.1 + 1).max().unwrap_or(0)
    }
    fn read_ss(&self, ss_num: usize) -> Result<Option<Vec<u8>>, Error> {
        Ok(self.snapshots.get(&ss_num).cloned())
    }
    fn read_ss_cl(&self, ss_num: usize, cl_num: usize) -> Result<Option<Vec<u8>>, Error> {
        Ok(self.logs.get(&(ss_num, cl_num)).cloned())
    }
    fn new_ss(&mut self, ss_num: usize, data: &[u8]) -> Result<bool, Error> {
        if self.snapshots.contains_key(&ss_num) {
            return Ok(false);
        }
        self.snapshots.insert(ss_num, data.to_vec());
        Ok(true)
    }
    fn append_ss_cl(&mut self, ss_num: usize, cl_num: usize, data: &[u8]) -> Result<bool, Error> {
        match self.logs.get_mut(&(ss_num, cl_num)) {
            Some(log) => {
                log.extend_from_slice(data);
                Ok(true)
            }
            None => Ok(false),
        }
    }
    fn new_ss_cl(&mut self, ss_num: usize, cl_num: usize, data: &[u8]) -> Result<bool, Error> {
        if self.logs.contains_key(&(ss_num, cl_num)) {
            return Ok(false);
        }
        self.logs.insert((ss_num, cl_num), data.to_vec());
        Ok(true)
    }
}

#[test]
fn on_new_partition() {
    let io = DummyPartIO::new(PartId::from_num(7));
    let mut part = Partition::create(io, "on_new_partition", vec![]).expect("partition creation");
    assert_eq!(part.tips.len(), 1);

    let state = part.tip().expect("getting tip").clone_mut();
    assert_eq!(part.push_state(state, ExtraMeta::Empty).expect("committing"), false);

    let mut state = part.tip().expect("getting tip").clone_mut();
    assert!(!state.any_avail());

    let elt1 = Element::from_text("This is element one.");
    let elt2 = Element::from_text("Element two data.");
    let e1id = state.insert(elt1).expect("inserting elt");
    let e2id = state.insert(elt2).expect("inserting elt");

    assert_eq!(part.push_state(state, ExtraMeta::Empty).expect("comitting"), true);
    assert_eq!(part.unsaved.len(), 1);
    assert_eq!(part.states.len(), 2);
    let key = part.tip().expect("tip").statesum().clone();
    {
        let state = part.state(&key).expect("getting state by key");
        assert!(state.is_avail(e1id));
        assert_eq!(state.get(e2id), Ok(&Element::from_text("Element two data.")));
    }
    assert_eq!(part.tips.len(), 1);
    let state = part.tip().expect("getting tip").clone_mut();
    assert_eq!(*state.parent(), key);

    assert_eq!(part.push_state(state, ExtraMeta::Empty).expect("committing"), false);
}

#[test]
fn create_push_reload() {
    let io = MemIO::new(PartId::from_num(1));
    let mut part = Partition::create(io, "t1", vec![]).unwrap();
    let mut state = part.tip().unwrap().clone_mut();
    let id = state.insert(Element::from_text("hello")).unwrap();
    assert_eq!(part.push_state(state, ExtraMeta::Empty), Ok(true));
    let expected = *part.tip().unwrap().statesum();
    assert_eq!(part.write(false, vec![]), Ok(true));
    let io = part.unwrap_io();

    let mut part = Partition::open(io).unwrap();
    assert!(!part.is_loaded());
    part.load(false).unwrap();
    assert_eq!(part.tips.len(), 1);
    let tip = part.tip().unwrap();
    assert_eq!(*tip.statesum(), expected);
    assert_eq!(tip.num_avail(), 1);
    assert_eq!(tip.get(id).unwrap().text().unwrap(), "hello");
    assert_eq!(part.get_repo_name().unwrap(), "t1");
}

#[test]
fn push_without_change() {
    let io = MemIO::new(PartId::from_num(2));
    let mut part = Partition::create(io, "t2", vec![]).unwrap();
    let state = part.tip().unwrap().clone_mut();
    assert_eq!(part.push_state(state, ExtraMeta::Empty), Ok(false));
    assert_eq!(part.unsaved.len(), 0);
    assert_eq!(part.write(false, vec![]), Ok(false));
    assert_eq!(part.states.len(), 1);
    assert_eq!(part.num_states(), 1);
}

#[test]
fn snapshot_rotation() {
    let io = MemIO::new(PartId::from_num(3));
    let mut part = Partition::create(io, "t3", vec![]).unwrap();
    for i in 0..31 {
        let mut state = part.tip().unwrap().clone_mut();
        state.insert(Element::from_text(&format!("element {}", i))).unwrap();
        assert_eq!(part.push_state(state, ExtraMeta::Empty), Ok(true));
    }
    assert_eq!(part.ss_policy.commits, 31);
    assert_eq!(part.ss_policy.edits, 31);
    assert!(part.ss_policy.snapshot());
    assert_eq!(part.write(false, vec![]), Ok(true));
    assert_eq!(part.ss_num, 1);
    assert_eq!(part.ss_policy.commits, 0);
    assert_eq!(part.ss_policy.edits, 0);
    let tip_elts = part.tip().unwrap().num_avail();
    let io = part.unwrap_io();
    assert_eq!(io.snapshots.len(), 2);
    assert!(io.snapshots.contains_key(&1));
    assert_eq!(io.logs.len(), 1);

    // what was written can be loaded, from the latest snapshot alone
    let mut part = Partition::open(io.clone()).unwrap();
    part.load(false).unwrap();
    assert_eq!(part.tips.len(), 1);
    assert_eq!(part.tip().unwrap().num_avail(), tip_elts);
    // and with all of its history
    let mut part = Partition::open(io).unwrap();
    part.load(true).unwrap();
    assert!(part.is_loaded());
    assert_eq!(part.states.len(), 33);
}

#[test]
fn thirty_commits_need_no_snapshot() {
    let io = MemIO::new(PartId::from_num(3));
    let mut part = Partition::create(io, "t3", vec![]).unwrap();
    for i in 0..25 {
        let mut state = part.tip().unwrap().clone_mut();
        state.insert(Element::from_text(&format!("element {}", i))).unwrap();
        assert_eq!(part.push_state(state, ExtraMeta::Empty), Ok(true));
    }
    // 25 * 5 + 25 = 150 is not above 150
    assert!(!part.ss_policy.snapshot());
    assert_eq!(part.write(false, vec![]), Ok(true));
    assert_eq!(part.ss_num, 0);
}

#[test]
fn corrupt_snapshot_is_refused() {
    let io = MemIO::new(PartId::from_num(4));
    let mut part = Partition::create(io, "t4", vec![]).unwrap();
    let mut state = part.tip().unwrap().clone_mut();
    state.insert(Element::from_text("some payload to damage")).unwrap();
    part.push_state(state, ExtraMeta::Empty).unwrap();
    part.write_snapshot(vec![]).unwrap();
    let mut io = part.unwrap_io();
    let file = io.snapshots.get_mut(&1).unwrap();
    let payload = b"some payload to damage";
    let at = file.windows(payload.len()).position(|w| w == payload).unwrap();
    file[at + 3] ^= 0x01;
    let from = at;
    let to = at + payload.len();
    io.snapshots.remove(&0);

    let mut part = Partition::open(io).unwrap();
    match part.load(false) {
        Err(Error::Read(e)) => {
            assert_eq!(e.msg, "element checksum mismatch");
            assert!(from <= e.pos + e.off_start);
            assert!(e.pos + e.off_end <= to);
        }
        other => panic!("expected a read error, got {:?}", other.map(|_| ())),
    }
}

#[test]
fn push_commit_errors() {
    let io = MemIO::new(PartId::from_num(5));
    let mut part = Partition::create(io, "t5", vec![]).unwrap();
    let mut state = part.tip().unwrap().clone_mut();
    state.insert(Element::from_text("one")).unwrap();
    part.push_state(state, ExtraMeta::Empty).unwrap();
    let commit = part.unsaved[0].clone();
    // the state of the commit is known already
    assert_eq!(part.push_commit(commit.clone()), Err(PatchOp::SumClash));
    // on a partition that does not know the parent
    let io = MemIO::new(PartId::from_num(6));
    let mut other = Partition::open(io).unwrap();
    assert_eq!(other.push_commit(commit.clone()), Err(PatchOp::NoParent));
    // a commit that does not lead to the sum that it names
    let io = MemIO::new(PartId::from_num(5));
    let mut fresh = Partition::create(io, "t5", vec![]).unwrap();
    let mut wrong = commit.clone();
    wrong.statesum = Sum::load(&[7u8; 32]);
    assert_eq!(fresh.push_commit(wrong), Err(PatchOp::PatchApply));
    // and the commit itself is taken
    assert_eq!(fresh.push_commit(commit), Ok(()));
    assert_eq!(fresh.tips.len(), 1);
    assert_eq!(fresh.tip().unwrap().num_avail(), 1);
}

#[test]
fn tips_of_a_fork() {
    let io = MemIO::new(PartId::from_num(8));
    let mut part = Partition::create(io, "t8", vec![]).unwrap();
    let root = *part.tip().unwrap().statesum();
    let mut a = part.tip().unwrap().clone_mut();
    let mut b = part.tip().unwrap().clone_mut();
    a.insert(Element::from_text("left")).unwrap();
    b.insert(Element::from_text("right")).unwrap();
    assert_eq!(part.push_state(a, ExtraMeta::Empty), Ok(true));
    assert_eq!(part.push_state(b, ExtraMeta::Text("second".to_string())), Ok(true));
    assert!(part.merge_required());
    assert!(!part.is_ready());
    assert_eq!(part.tips.len(), 2);
    assert_eq!(part.tip().err(), Some(TipError::MergeRequired));
    assert_eq!(part.write_snapshot(vec![]), Err(Error::Tip(TipError::MergeRequired)));
    let (t1, t2) = (part.tips[0], part.tips[1]);
    assert_eq!(part.latest_common_ancestor(&t1, &t2), Ok(root));
    assert_eq!(part.latest_common_ancestor(&t1, &t1), Ok(t1));
    assert_eq!(part.latest_common_ancestor(&root, &t2), Ok(root));
    let unknown = Sum::load(&[9u8; 32]);
    assert_eq!(
        part.latest_common_ancestor(&unknown, &t2),
        Err(Error::Other("unable to find a common ancestor"))
    );
    assert!(part.unload(true));
    assert_eq!(part.tip().err(), Some(TipError::NotReady));
}
