use pippin::commit::{Commit, CommitMeta, EltChange, ExtraMeta};
use pippin::detail::part::{PartIO, Partition};
use pippin::elt::{Element, ElementT};
use pippin::error::{Error, PatchOp};
use pippin::idmap::IdMap;
use pippin::ids::PartId;
use pippin::merge::TakeFirst;
use pippin::readwrite::commitlog::write_commit;
use pippin::readwrite::header::{read_head, write_head, FileHeader, FileType};
use pippin::readwrite::snapshot::{eight_bytes, read_snapshot, write_snapshot_dated};
use pippin::state::PartState;
use pippin::sum::Sum;

/// What a provider was asked to do with data.
#[derive(Clone, Debug, PartialEq, Eq)]
enum Asked {
    Snapshot(usize),
    Log(usize, usize),
    Append(usize, usize),
}

/// A provider that keeps what it is asked, and answers as it is told: the
/// snapshots and logs with the numbers of `taken` are there, and the
/// appending fails from the call `fail_from` on.
struct Told {
    part_id: PartId,
    first_log: usize,
    taken: Vec<Asked>,
    fail_from: usize,
    appends: usize,
    asked: Vec<(Asked, Vec<u8>)>,
}

impl Told {
    fn new(num: u64) -> Told {
        Told {
            part_id: PartId::from_num(num),
            first_log: 0,
            taken: vec![],
            fail_from: usize::MAX,
            appends: 0,
            asked: vec![],
        }
    }
}

impl PartIO for Told {
    fn part_id(&self) -> PartId {
        self.part_id
    }
    fn ss_len(&self) -> usize {
        0
    }
    fn ss_cl_len(&self, _ss_num: usize) -> usize {
        self.first_log
    }
    fn read_ss(&self, _ss_num: usize) -> Result<Option<Vec<u8>>, Error> {
        Ok(None)
    }
    fn read_ss_cl(&self, _ss_num: usize, _cl_num: usize) -> Result<Option<Vec<u8>>, Error> {
        Ok(None)
    }
    fn new_ss(&mut self, ss_num: usize, data: &[u8]) -> Result<bool, Error> {
        self.asked.push((Asked::Snapshot(ss_num), data.to_vec()));
        Ok(!self.taken.contains(&Asked::Snapshot(ss_num)))
    }
    fn append_ss_cl(&mut self, ss_num: usize, cl_num: usize, data: &[u8]) -> Result<bool, Error> {
        self.asked.push((Asked::Append(ss_num, cl_num), data.to_vec()));
        self.appends += 1;
        if self.appends > self.fail_from {
            return Err(Error::Io("the disk is full"));
        }
        Ok(true)
    }
    fn new_ss_cl(&mut self, ss_num: usize, cl_num: usize, data: &[u8]) -> Result<bool, Error> {
        self.asked.push((Asked::Log(ss_num, cl_num), data.to_vec()));
        Ok(!self.taken.contains(&Asked::Log(ss_num, cl_num)))
    }
}

fn push(part: &mut Partition<Told>, text: &str) {
    let mut state = part.tip().unwrap().clone_mut();
    state.insert(Element::from_text(text)).unwrap();
    assert_eq!(part.push_state(state, ExtraMeta::Empty), Ok(true));
}

#[test]
fn creation_asks_for_snapshot_zero() {
    let part = Partition::create(Told::new(71), "told", vec![]).unwrap();
    assert_eq!(part.part_id(), PartId::from_num(71));
    assert_eq!(part.io.asked.len(), 1);
    assert_eq!(part.io.asked[0].0, Asked::Snapshot(0));
    let data = &part.io.asked[0].1;
    let (head, pos) = read_head(data).unwrap();
    assert_eq!(head.ftype, FileType::Snapshot(0));
    assert_eq!(head.name, "told");
    assert_eq!(head.part_id, Some(PartId::from_num(71)));
    assert_eq!(read_snapshot(data, pos, PartId::from_num(71)), Ok(PartState::new(PartId::from_num(71))));
    // a snapshot 0 that is there is an error
    let mut io = Told::new(71);
    io.taken.push(Asked::Snapshot(0));
    assert_eq!(Partition::create(io, "told", vec![]).err(), Some(Error::Io("snapshot already exists")));
    // with a name that is not allowed the provider is not asked: the
    // identifier would be refused next
    let mut io = Told::new(71);
    io.part_id = PartId { id: 3 };
    assert_eq!(
        Partition::create(io, "", vec![]).err(),
        Some(Error::arg("the name of a repository is not empty and holds no NUL"))
    );
    let opened = Partition::open(Told::new(72)).unwrap();
    assert_eq!(opened.part_id(), PartId::from_num(72));
}

#[test]
fn writing_takes_the_first_free_log() {
    let mut io = Told::new(73);
    io.first_log = 4;
    io.taken = vec![Asked::Log(0, 4), Asked::Log(0, 5)];
    let mut part = Partition::create(io, "logs", vec![]).unwrap();
    part.io.asked.clear();
    push(&mut part, "one");
    push(&mut part, "two");
    let commits: Vec<Commit> = part.unsaved.iter().cloned().collect();
    let start = part.log_file_start(vec![]).unwrap();
    assert_eq!(part.write(true, vec![]), Ok(true));
    let asked: Vec<Asked> = part.io.asked.iter().map(|a| a.0.clone()).collect();
    assert_eq!(
        asked,
        vec![
            Asked::Log(0, 4),
            Asked::Log(0, 5),
            Asked::Log(0, 6),
            Asked::Append(0, 6),
            Asked::Append(0, 6)
        ]
    );
    for i in 0..3 {
        assert_eq!(part.io.asked[i].1, start);
    }
    for i in 0..2 {
        let mut bytes = vec![];
        write_commit(&commits[i], &mut bytes).unwrap();
        assert_eq!(part.io.asked[3 + i].1, bytes);
    }
    assert!(part.unsaved.is_empty());
    assert_eq!(part.ss_num, 0);
}

#[test]
fn writing_gives_up_above_the_limit() {
    let mut io = Told::new(74);
    io.first_log = 1_000_001;
    io.taken = vec![Asked::Log(0, 1_000_001)];
    let mut part = Partition::create(io, "logs", vec![]).unwrap();
    part.io.asked.clear();
    push(&mut part, "one");
    assert_eq!(part.write(true, vec![]), Err(Error::Other("Commit log number too high")));
    assert_eq!(part.io.asked.len(), 1);
    assert_eq!(part.unsaved.len(), 1);
    // a name that is not allowed is found before the provider is asked
    part.io.asked.clear();
    part.repo_name = String::new();
    assert_eq!(
        part.write(true, vec![]),
        Err(Error::arg("the name of a repository is not empty and holds no NUL"))
    );
    assert!(part.io.asked.is_empty());
    assert_eq!(part.unsaved.len(), 1);
    assert_eq!(
        part.write_snapshot(vec![]),
        Err(Error::arg("the name of a repository is not empty and holds no NUL"))
    );
    assert!(part.io.asked.is_empty());
}

#[test]
fn a_failed_append_leaves_the_rest_waiting() {
    let mut part = Partition::create(Told::new(75), "rest", vec![]).unwrap();
    push(&mut part, "one");
    push(&mut part, "two");
    push(&mut part, "three");
    let commits: Vec<Commit> = part.unsaved.iter().cloned().collect();
    part.io.fail_from = 1;
    part.ss_policy.require();
    let policy = part.ss_policy;
    assert_eq!(part.write(false, vec![]), Err(Error::Io("the disk is full")));
    let left: Vec<Commit> = part.unsaved.iter().cloned().collect();
    assert_eq!(left, commits[1..].to_vec());
    assert_eq!(part.ss_num, 0);
    assert_eq!(part.ss_policy, policy);
    // no snapshot was asked for
    assert!(part.io.asked.iter().skip(1).all(|a| !matches!(a.0, Asked::Snapshot(_))));
    assert_eq!(part.tips.len(), 1);
    assert_eq!(part.num_states(), 4);
}

#[test]
fn a_snapshot_takes_the_first_free_number() {
    let mut io = Told::new(76);
    io.taken = vec![Asked::Snapshot(1), Asked::Snapshot(2)];
    let mut part = Partition::create(io, "snap", vec![]).unwrap();
    push(&mut part, "kept");
    part.io.asked.clear();
    let tip = part.tip().unwrap().duplicate();
    assert_eq!(part.write_snapshot(vec![]), Ok(()));
    let asked: Vec<Asked> = part.io.asked.iter().map(|a| a.0.clone()).collect();
    assert_eq!(asked, vec![Asked::Snapshot(1), Asked::Snapshot(2), Asked::Snapshot(3)]);
    assert_eq!(part.ss_num, 3);
    assert!(!part.ss_policy.snapshot());
    assert_eq!(part.unsaved.len(), 1);
    let data = &part.io.asked[2].1;
    assert_eq!(&part.io.asked[0].1, data);
    let (head, pos) = read_head(data).unwrap();
    assert_eq!(head.name, "snap");
    let read = read_snapshot(data, pos, PartId::from_num(76)).unwrap();
    assert_eq!(read.elt_map(), tip.elt_map());
    // a due snapshot follows the log
    push(&mut part, "more");
    part.ss_policy.require();
    part.io.asked.clear();
    assert_eq!(part.write(false, vec![]), Ok(true));
    let asked: Vec<Asked> = part.io.asked.iter().map(|a| a.0.clone()).collect();
    assert_eq!(
        asked,
        vec![Asked::Log(3, 0), Asked::Append(3, 0), Asked::Append(3, 0), Asked::Snapshot(4)]
    );
    assert_eq!(part.ss_num, 4);
    part.ss_num = usize::MAX;
    assert_eq!(part.write_snapshot(vec![]), Err(Error::Other("Snapshot number too high")));
}

#[test]
fn one_step_of_a_merge() {
    let mut part = Partition::create(Told::new(77), "step", vec![]).unwrap();
    assert_eq!(part.merge_step(None), Err(Error::Other("merge failed")));
    assert_eq!(part.num_states(), 1);
    // a commit that cannot be pushed
    let meta = CommitMeta::new_explicit(1, 1, ExtraMeta::Empty);
    let known = Commit::new_explicit(Sum::zero(), vec![Sum::zero()], IdMap::new(), meta);
    assert_eq!(part.merge_step(Some(known)), Err(Error::Patch(PatchOp::SumClash)));
    // a commit that leaves as many tips as there were
    let mut state = part.tip().unwrap().clone_mut();
    let id = state.insert(Element::from_text("e")).unwrap();
    let mut changes = IdMap::new();
    changes.insert(id.id, EltChange::insertion(Element::from_text("e")));
    let meta = CommitMeta::new_explicit(1, 1, ExtraMeta::Empty);
    let next = PartState::from_mut(state, vec![Sum::zero()], meta.duplicate());
    let commit = Commit::new_explicit(*next.statesum(), vec![Sum::zero()], changes, meta);
    assert_eq!(part.merge_step(Some(commit)), Err(Error::Other("merge failed")));
    assert_eq!(part.num_states(), 2);
    assert_eq!(part.tips, vec![*next.statesum()]);
}

#[test]
fn tips_without_a_common_ancestor_are_not_merged() {
    let pid = PartId::from_num(78);
    let mut part = Partition::create(Told::new(78), "apart", vec![]).unwrap();
    // a second state without parents, as a snapshot of other elements brings it
    let mut other = PartState::new(pid).clone_mut();
    other.insert(Element::from_text("other")).unwrap();
    let other = PartState::from_mut(other, vec![], CommitMeta::new_explicit(0, 0, ExtraMeta::Empty));
    let head = FileHeader {
        ftype: FileType::Snapshot(0),
        name: "apart".to_string(),
        part_id: Some(pid),
        user: vec![],
    };
    let mut bytes = vec![];
    write_head(&head, &mut bytes).unwrap();
    write_snapshot_dated(&other, b"20260101", &mut bytes).unwrap();
    assert_eq!(part.accept_snapshot(&bytes), Ok(head));
    assert_eq!(part.tips.len(), 2);
    assert!(part.merge_required());
    assert_eq!(part.merge(&TakeFirst), Err(Error::Other("unable to find a common ancestor")));
    assert_eq!(part.tips.len(), 2);
    assert!(part.unsaved.is_empty());
}

#[test]
fn the_date_has_eight_bytes() {
    assert_eq!(eight_bytes(b"20261029"), b"20261029".to_vec());
    assert_eq!(eight_bytes(b"+102340506"), b"02340506".to_vec());
    assert_eq!(eight_bytes(b"9990101"), b"09990101".to_vec());
    assert_eq!(eight_bytes(b""), b"00000000".to_vec());
}

#[test]
fn values_in_elements() {
    let text = "grüß dich".to_string();
    let e = Element::holding(&text);
    assert_eq!(e.data(), text.as_bytes());
    assert_eq!(e.held::<String>(), Ok(text));
    let bytes: Vec<u8> = vec![0xFF, 0, 7];
    let e = Element::holding(&bytes);
    assert_eq!(e.data(), &bytes[..]);
    assert_eq!(e.held::<Vec<u8>>(), Ok(bytes));
    assert_eq!(e.held::<String>(), Err(Error::Encoding("payload is not valid UTF-8")));
    assert_eq!(String::read_buf(b"abc"), Ok("abc".to_string()));
    assert_eq!("abc".to_string().write_buf(), b"abc".to_vec());
}
