use pippin::commit::{Commit, CommitMeta, EltChange, ExtraMeta};
use pippin::elt::Element;
use pippin::error::{Error, ReadError};
use pippin::idmap::IdMap;
use pippin::ids::PartId;
use pippin::readwrite::commitlog::{
    read_commits, read_log, start_log, write_commit, CommitReceiver,
};
use pippin::readwrite::header::{
    read_head, validate_repo_name, write_head, FileHeader, FileType, UserData,
};
use pippin::readwrite::snapshot::{read_snapshot, write_snapshot, write_snapshot_dated};
use pippin::state::PartState;
use pippin::sum::Sum;
use pippin::wire::{append_padded, padding_for, u32_at, u64_at, i64_at};
use pippin::wire::{append_i64, append_u32, append_u64};

fn sum_of_byte(b: u8) -> Sum {
    Sum::load(&[b; 32])
}

fn sample_commit(parents: Vec<Sum>, extra: ExtraMeta) -> Commit {
    let p = PartId::from_num(2);
    let mut changes = IdMap::new();
    changes.insert(p.elt_id(1).id, EltChange::insertion(Element::from_text("0123456789abcdef")));
    changes.insert(p.elt_id(2).id, EltChange::replacement(Element::from_text("")));
    changes.insert(p.elt_id(3).id, EltChange::deletion());
    changes.insert(p.elt_id(4).id, EltChange::moved(PartId::from_num(3).elt_id(9), true));
    changes.insert(p.elt_id(5).id, EltChange::moved(PartId::from_num(3).elt_id(8), false));
    Commit::new_explicit(sum_of_byte(0x11), parents, changes, CommitMeta::new_explicit(7, -5, extra))
}

#[test]
fn integers_are_big_endian() {
    let mut w = vec![];
    append_u64(&mut w, 0x0102030405060708);
    append_u32(&mut w, 0xA1B2C3D4);
    append_i64(&mut w, -2);
    assert_eq!(
        w,
        vec![
            1, 2, 3, 4, 5, 6, 7, 8, 0xA1, 0xB2, 0xC3, 0xD4, 0xFF, 0xFF, 0xFF, 0xFF, 0xFF, 0xFF,
            0xFF, 0xFE
        ]
    );
    assert_eq!(u64_at(&w, 0), 0x0102030405060708);
    assert_eq!(u32_at(&w, 8), 0xA1B2C3D4);
    assert_eq!(i64_at(&w, 12), -2);
    assert_eq!(u64_at(&w, 1), 0x02030405060708A1);
}

#[test]
fn padding_to_sixteen() {
    assert_eq!(padding_for(0), 0);
    assert_eq!(padding_for(1), 15);
    assert_eq!(padding_for(15), 1);
    assert_eq!(padding_for(16), 0);
    assert_eq!(padding_for(17), 15);
    assert_eq!(padding_for(usize::MAX), 1);
    let mut w = vec![9u8];
    append_padded(&mut w, b"abc");
    assert_eq!(w.len(), 17);
    assert_eq!(&w[1..4], b"abc");
    assert!(w[4..].iter().all(|b| *b == 0));
}

#[test]
fn layout_of_a_commit() {
    let commit = sample_commit(vec![sum_of_byte(0x22)], ExtraMeta::Text("xyz".to_string()));
    let mut w = vec![];
    assert!(write_commit(&commit, &mut w).is_ok());
    assert_eq!(&w[0..8], b"COMMIT\x00U");
    assert_eq!(&w[8..16], &(-5i64).to_be_bytes());
    assert_eq!(&w[16..20], b"CNUM");
    assert_eq!(&w[20..24], &7u32.to_be_bytes());
    assert_eq!(&w[24..28], b"XMTT");
    assert_eq!(&w[28..32], &3u32.to_be_bytes());
    assert_eq!(&w[32..35], b"xyz");
    assert_eq!(&w[35..48], &[0u8; 13]);
    assert_eq!(&w[48..80], &[0x22u8; 32]);
    assert_eq!(&w[80..88], b"ELEMENTS");
    assert_eq!(&w[88..96], &5u64.to_be_bytes());
    assert_eq!(&w[96..104], b"ELT INS\x00");
    assert_eq!(&w[104..112], &((2u64 << 24) + 1).to_be_bytes());
    assert_eq!(&w[112..120], b"ELT DATA");
    assert_eq!(&w[120..128], &16u64.to_be_bytes());
    assert_eq!(&w[128..144], b"0123456789abcdef");
    assert_eq!(&w[144..176], &Sum::elt_sum((2 << 24) + 1, b"0123456789abcdef").to_bytes()[..]);
    assert_eq!(&w[176..184], b"ELT REPL");
    assert_eq!(&w[192..200], b"ELT DATA");
    assert_eq!(&w[200..208], &0u64.to_be_bytes());
    assert_eq!(&w[208..240], &Sum::elt_sum((2 << 24) + 2, b"").to_bytes()[..]);
    assert_eq!(&w[240..248], b"ELT DEL\x00");
    assert_eq!(&w[256..264], b"ELT MOVO");
    assert_eq!(&w[272..280], b"NEW ELT\x00");
    assert_eq!(&w[280..288], &((3u64 << 24) + 9).to_be_bytes());
    assert_eq!(&w[288..296], b"ELT MOV\x00");
    assert_eq!(&w[304..312], b"NEW ELT\x00");
    assert_eq!(&w[320..352], &[0x11u8; 32]);
    assert_eq!(&w[352..384], &Sum::calculate(&w[0..352]).to_bytes()[..]);
    assert_eq!(w.len(), 384);
}

#[test]
fn layout_of_a_merge_commit() {
    let parents: Vec<Sum> = (0..255u32).map(|i| sum_of_byte(i as u8)).collect();
    let commit = sample_commit(parents.clone(), ExtraMeta::Empty);
    let mut w = vec![7u8; 5];
    assert!(write_commit(&commit, &mut w).is_ok());
    assert_eq!(&w[5..13], b"MERGE\xFF\x00U");
    assert_eq!(&w[29..37], b"XM\x00\x00\x00\x00\x00\x00");
    assert_eq!(&w[37..69], &[0u8; 32]);
    let (commits, fault) = read_commits(&w, 5);
    assert_eq!(fault, None);
    assert_eq!(commits, vec![commit]);
    assert_eq!(commits[0].parents().len(), 255);
    assert_eq!(commits[0].parents(), &parents);
}

#[test]
fn log_without_commits() {
    let mut w = vec![];
    assert!(start_log(&mut w).is_ok());
    assert_eq!(w, b"COMMIT LOG\x00\x00\x00\x00\x00\x00");
    let mut commits: Vec<Commit> = vec![];
    assert_eq!(read_log(&w, 0, &mut commits), Ok(()));
    assert!(commits.is_empty());
}

#[test]
fn log_with_a_torn_tail() {
    let first = sample_commit(vec![sum_of_byte(1)], ExtraMeta::Empty);
    let second = sample_commit(vec![sum_of_byte(2), sum_of_byte(3)], ExtraMeta::Empty);
    let mut w = vec![];
    start_log(&mut w).unwrap();
    write_commit(&first, &mut w).unwrap();
    let whole = w.len();
    write_commit(&second, &mut w).unwrap();
    w.truncate(w.len() - 7);
    let mut commits: Vec<Commit> = vec![];
    let r = read_log(&w, 0, &mut commits);
    assert_eq!(commits, vec![first]);
    match r {
        Err(Error::Read(e)) => {
            assert_eq!(e.msg, "unexpected end of data");
            assert!(e.pos >= whole);
            assert_eq!(e.pos + e.off_end, w.len());
        }
        other => panic!("expected a read error, got {:?}", other),
    }
}

#[test]
fn log_errors() {
    let mut commits: Vec<Commit> = vec![];
    assert_eq!(
        read_log(b"COMMIT LOG", 0, &mut commits),
        Err(Error::Read(ReadError::new("unexpected end of data", 0, (0, 10))))
    );
    assert_eq!(
        read_log(b"COMMIT LOG", 20, &mut commits),
        Err(Error::Read(ReadError::new("unexpected end of data", 20, (0, 0))))
    );
    assert_eq!(
        read_log(b"COMMIT LOX\x00\x00\x00\x00\x00\x00", 0, &mut commits),
        Err(Error::read(
            "unexpected contents (expected COMMIT LOG\\x00\\x00\\x00\\x00\\x00\\x00)",
            0,
            (0, 16)
        ))
    );
    let good = sample_commit(vec![sum_of_byte(1)], ExtraMeta::Text("é".to_string()));
    let mut w = vec![];
    write_commit(&good, &mut w).unwrap();
    let check = |at: usize, byte: u8, msg: &'static str, pos: usize, off: (usize, usize)| {
        let mut bad = w.clone();
        bad[at] = byte;
        let (commits, fault) = read_commits(&bad, 0);
        assert!(commits.is_empty());
        let fault = fault.unwrap();
        assert_eq!((fault.msg, fault.pos, fault.off_start, fault.off_end), (msg, pos, off.0, off.1));
    };
    check(0, b'X', "unexpected contents (expected COMMIT or MERGE)", 0, (0, 6));
    check(7, b'V', "unexpected contents (expected \\x00U)", 0, (6, 8));
    check(16, b'X', "unexpected contents (expected CNUM)", 16, (0, 4));
    check(24, b'Y', "unexpected contents (expected XM)", 16, (8, 10));
    check(26, b'X', "unexpected contents (expected TT or \\x00\\x00)", 16, (10, 12));
    check(32, 0xFF, "content not valid UTF-8", 32, (0, 2));
    check(80, b'e', "unexpected contents (expected ELEMENTS)", 80, (0, 8));
    check(96, b'e', "unexpected contents (expected ELT\\x20)", 96, (0, 4));
    check(
        100,
        b'X',
        "unexpected contents (expected one of DEL\\x00, INS\\x00, REPL, MOVO, MOV\\x00)",
        96,
        (4, 8),
    );
    check(112, b'e', "unexpected contents (expected ELT DATA)", 112, (0, 8));
    check(130, b'!', "element checksum mismatch", 128, (0, 16));
    check(150, 0, "element checksum mismatch", 128, (0, 16));
    check(272, b'n', "unexpected contents (expected NEW ELT)", 272, (0, 8));
    check(w.len() - 1, w[w.len() - 1] ^ 0x80, "checksum invalid", w.len() - 32, (0, 32));
    check(330, 0x55, "checksum invalid", w.len() - 32, (0, 32));
    // a merge of fewer than two parents
    let mut bad = w.clone();
    bad[0..8].copy_from_slice(b"MERGE\x01\x00U");
    assert_eq!(
        read_commits(&bad, 0).1,
        Some(ReadError::new("bad number of parents", 0, (5, 6)))
    );
}

#[test]
fn every_damaged_byte_of_a_log_is_found() {
    let a = sample_commit(vec![sum_of_byte(1)], ExtraMeta::Text("note".to_string()));
    let mut w = vec![];
    start_log(&mut w).unwrap();
    write_commit(&a, &mut w).unwrap();
    for at in 0..w.len() {
        let mut bad = w.clone();
        bad[at] ^= 0x01;
        let mut commits: Vec<Commit> = vec![];
        assert!(read_log(&bad, 0, &mut commits).is_err(), "byte {} of the log", at);
        assert!(commits.is_empty());
    }
}

#[test]
fn later_changes_of_an_element_replace_earlier_ones() {
    // two changes of one element in a commit: the reader keeps the later
    let p = PartId::from_num(2);
    let mut w: Vec<u8> = vec![];
    w.extend_from_slice(b"COMMIT\x00U");
    w.extend_from_slice(&0i64.to_be_bytes());
    w.extend_from_slice(b"CNUM");
    w.extend_from_slice(&1u32.to_be_bytes());
    w.extend_from_slice(b"XM\x00\x00\x00\x00\x00\x00");
    w.extend_from_slice(&[5u8; 32]);
    w.extend_from_slice(b"ELEMENTS");
    w.extend_from_slice(&2u64.to_be_bytes());
    w.extend_from_slice(b"ELT DEL\x00");
    w.extend_from_slice(&p.elt_id(1).id.to_be_bytes());
    w.extend_from_slice(b"ELT MOVO");
    w.extend_from_slice(&p.elt_id(1).id.to_be_bytes());
    w.extend_from_slice(b"NEW ELT\x00");
    w.extend_from_slice(&p.elt_id(2).id.to_be_bytes());
    w.extend_from_slice(&[6u8; 32]);
    let sum = Sum::calculate(&w);
    sum.write(&mut w);
    let (commits, fault) = read_commits(&w, 0);
    assert_eq!(fault, None);
    assert_eq!(commits.len(), 1);
    assert_eq!(commits[0].num_changes(), 1);
    assert_eq!(commits[0].changes().get(p.elt_id(1).id), Some(&EltChange::MovedOut(p.elt_id(2))));
}

struct FirstOnly {
    got: Vec<Commit>,
}

impl CommitReceiver for FirstOnly {
    fn receive(&mut self, commit: Commit) -> bool {
        self.got.push(commit);
        false
    }
}

#[test]
fn a_receiver_can_stop_the_reading() {
    let a = sample_commit(vec![sum_of_byte(1)], ExtraMeta::Empty);
    let b = sample_commit(vec![sum_of_byte(2)], ExtraMeta::Empty);
    let mut w = vec![];
    start_log(&mut w).unwrap();
    write_commit(&a, &mut w).unwrap();
    write_commit(&b, &mut w).unwrap();
    w.truncate(w.len() - 1);
    let mut receiver = FirstOnly { got: vec![] };
    // the damaged second commit is never read
    assert_eq!(read_log(&w, 0, &mut receiver), Ok(()));
    assert_eq!(receiver.got, vec![a]);
}

#[test]
fn layout_of_a_snapshot() {
    let part = PartId::from_num(5);
    let state = PartState::new(part);
    let mut w = vec![];
    assert_eq!(write_snapshot_dated(&state, b"20200101", &mut w), Ok(()));
    let mut expected = Vec::new();
    expected.extend_from_slice(b"SNAPSHOT20200101ELEMENTS");
    expected.extend_from_slice(&0u64.to_be_bytes());
    expected.extend_from_slice(b"STATESUM");
    expected.extend_from_slice(&0u64.to_be_bytes());
    expected.extend_from_slice(&[0u8; 32]);
    assert_eq!(expected.len(), 80);
    let trailer: Vec<u8> = (0..32)
        .map(|i| {
            u8::from_str_radix(
                &"075ac0712886ed105ab59dc81723c6e72402c1420d005627586f3d1d36f4dee1"
                    [2 * i..2 * i + 2],
                16,
            )
            .unwrap()
        })
        .collect();
    expected.extend_from_slice(&trailer);
    assert_eq!(w, expected);
    assert_eq!(read_snapshot(&w, 0, part), Ok(state));
    assert_eq!(
        write_snapshot_dated(&PartState::new(part), b"2020", &mut w),
        Err(Error::arg("the date of a snapshot has eight bytes"))
    );
    assert_eq!(w, expected);
}

#[test]
fn snapshot_with_elements() {
    let part = PartId::from_num(5);
    let mut state = PartState::new(part).clone_mut();
    state.insert_with_id(part.elt_id(2), Element::from_text("two")).unwrap();
    state.insert_with_id(part.elt_id(1), Element::from_text("sixteen bytes !!!")).unwrap();
    let state = PartState::from_mut(state, vec![], CommitMeta::blank());
    let mut w = b"what stands before".to_vec();
    write_snapshot_dated(&state, b"19991231", &mut w).unwrap();
    let s = 18;
    assert_eq!(&w[s + 24..s + 32], &2u64.to_be_bytes());
    assert_eq!(&w[s + 32..s + 40], b"ELEMENT\x00");
    assert_eq!(&w[s + 40..s + 48], &part.elt_id(1).id.to_be_bytes());
    assert_eq!(&w[s + 48..s + 56], b"BYTES\x00\x00\x00");
    assert_eq!(&w[s + 56..s + 64], &17u64.to_be_bytes());
    assert_eq!(&w[s + 64..s + 81], b"sixteen bytes !!!");
    assert_eq!(&w[s + 81..s + 96], &[0u8; 15]);
    let e1 = Sum::elt_sum(part.elt_id(1).id, b"sixteen bytes !!!");
    let e2 = Sum::elt_sum(part.elt_id(2).id, b"two");
    assert_eq!(&w[s + 96..s + 128], &e1.to_bytes()[..]);
    let end = w.len();
    assert_eq!(&w[end - 80..end - 72], b"STATESUM");
    assert_eq!(&w[end - 72..end - 64], &2u64.to_be_bytes());
    assert_eq!(&w[end - 64..end - 32], &e1.xor(&e2).to_bytes()[..]);
    // the closing checksum covers what stands before the snapshot too
    assert_eq!(&w[end - 32..], &Sum::calculate(&w[..end - 32]).to_bytes()[..]);
    let back = read_snapshot(&w, s, part).unwrap();
    assert_eq!(back, state);
    assert_eq!(*back.statesum(), e1.xor(&e2));
    // a snapshot of a state with parents is read as a state without
    let with_parent = PartState::from_mut(
        state.clone_mut(),
        vec![Sum::load(&[1u8; 32])],
        CommitMeta::new_explicit(3, 99, ExtraMeta::Empty),
    );
    assert_ne!(with_parent.statesum(), state.statesum());
    let mut w2 = b"what stands before".to_vec();
    write_snapshot_dated(&with_parent, b"19991231", &mut w2).unwrap();
    assert_eq!(w2, w);
}

#[test]
fn snapshot_errors() {
    let part = PartId::from_num(5);
    let mut state = PartState::new(part).clone_mut();
    state.insert_with_id(part.elt_id(1), Element::from_text("payload")).unwrap();
    let state = PartState::from_mut(state, vec![], CommitMeta::blank());
    let mut w = vec![];
    write_snapshot_dated(&state, b"20200101", &mut w).unwrap();
    let check = |at: usize, byte: u8, msg: &'static str, pos: usize, off: (usize, usize)| {
        let mut bad = w.clone();
        bad[at] = byte;
        assert_eq!(read_snapshot(&bad, 0, part), Err(Error::read(msg, pos, off)));
    };
    check(0, b's', "unexpected contents (expected SNAPSHOT)", 0, (0, 8));
    check(16, b'e', "unexpected contents (expected ELEMENTS)", 16, (0, 8));
    check(32, b'e', "unexpected contents (expected ELEMENT\\x00)", 32, (0, 8));
    check(40, 1, "element belongs to another partition", 32, (8, 16));
    check(48, b'b', "unexpected contents (expected BYTES\\x00\\x00\\x00)", 48, (0, 8));
    check(66, b'Y', "element checksum mismatch", 64, (0, 7));
    check(112, b's', "unexpected contents (expected STATESUM)", 112, (0, 8));
    check(
        127,
        2,
        "unexpected contents (number of elements differs from that previously stated)",
        120,
        (0, 8),
    );
    check(128, w[128] ^ 1, "state checksum mismatch", 128, (0, 32));
    check(160, w[160] ^ 1, "checksum mismatch", 160, (0, 32));
    check(9, b'9', "checksum mismatch", 160, (0, 32));
    assert_eq!(
        read_snapshot(&w[..100], 0, part),
        Err(Error::read("unexpected end of data", 80, (0, 20)))
    );
    assert_eq!(
        read_snapshot(&w, 0, PartId::from_num(6)),
        Err(Error::read("element belongs to another partition", 32, (8, 16)))
    );
    // an element that occurs twice
    let mut twice = w[..32].to_vec();
    twice[31] = 2;
    twice.extend_from_slice(&w[32..112]);
    twice.extend_from_slice(&w[32..112]);
    twice.extend_from_slice(&w[112..]);
    assert_eq!(
        read_snapshot(&twice, 0, part),
        Err(Error::read("element occurs twice", 112, (8, 16)))
    );
}

#[test]
fn every_damaged_byte_of_a_snapshot_is_found() {
    let part = PartId::from_num(5);
    let mut state = PartState::new(part).clone_mut();
    state.insert(Element::from_text("first")).unwrap();
    state.insert(Element::from_text("the second of them")).unwrap();
    let state = PartState::from_mut(state, vec![], CommitMeta::blank());
    let mut w = vec![];
    assert!(write_snapshot(&state, &mut w).is_ok());
    assert!(w[8..16].iter().all(|b| b.is_ascii_digit()));
    assert_eq!(read_snapshot(&w, 0, part), Ok(state));
    for at in 0..w.len() {
        let mut bad = w.clone();
        bad[at] ^= 0x10;
        assert!(read_snapshot(&bad, 0, part).is_err(), "byte {} of the snapshot", at);
    }
}

#[test]
fn header_is_read_as_written() {
    let header = FileHeader {
        ftype: FileType::CommitLog(3),
        name: "répertoire".to_string(),
        part_id: Some(PartId::from_num(77)),
        user: vec![
            UserData::Data(vec![1, 2, 3]),
            UserData::Text("remark".to_string()),
            UserData::Data(vec![]),
        ],
    };
    let mut w = vec![];
    assert_eq!(write_head(&header, &mut w), Ok(()));
    assert_eq!(&w[0..16], b"PIPPINCL\x00\x00\x00\x00\x00\x00\x00\x03");
    assert_eq!(&w[16..24], b"REPONAME");
    assert_eq!(&w[24..32], &11u64.to_be_bytes());
    assert_eq!(&w[32..43], "répertoire".as_bytes());
    assert_eq!(&w[43..48], &[0u8; 5]);
    assert_eq!(&w[48..56], b"PARTID\x00\x00");
    assert_eq!(&w[56..64], &(77u64 << 24).to_be_bytes());
    assert_eq!(&w[64..72], b"USERDATA");
    assert_eq!(&w[72..80], &3u64.to_be_bytes());
    assert_eq!(&w[96..104], b"USERTEXT");
    assert_eq!(&w[112..118], b"remark");
    assert_eq!(&w[128..136], b"USERDATA");
    assert_eq!(&w[144..160], b"HEADER END\x00\x00\x00\x00\x00\x00");
    assert_eq!(w.len(), 160);
    w.extend_from_slice(b"what follows");
    assert_eq!(read_head(&w), Ok((header.clone(), 160)));
    assert_eq!(header.ftype.ver(), 3);

    let plain = FileHeader {
        ftype: FileType::Snapshot(0),
        name: "n".to_string(),
        part_id: None,
        user: vec![],
    };
    let mut w = vec![];
    write_head(&plain, &mut w).unwrap();
    assert_eq!(w.len(), 64);
    assert_eq!(&w[0..8], b"PIPPINSS");
    assert_eq!(read_head(&w), Ok((plain, 64)));
}

#[test]
fn header_errors() {
    assert_eq!(validate_repo_name("name"), Ok(()));
    let bad_name = Error::arg("the name of a repository is not empty and holds no NUL");
    assert_eq!(validate_repo_name(""), Err(bad_name.clone()));
    assert_eq!(validate_repo_name("a\0b"), Err(bad_name.clone()));
    let mut header = FileHeader {
        ftype: FileType::Snapshot(0),
        name: "".to_string(),
        part_id: Some(PartId::from_num(1)),
        user: vec![UserData::Text("t".to_string())],
    };
    let mut w = vec![1, 2, 3];
    assert_eq!(write_head(&header, &mut w), Err(bad_name));
    assert_eq!(w, vec![1, 2, 3]);
    header.name = "repo".to_string();
    let mut w = vec![];
    write_head(&header, &mut w).unwrap();
    let check = |at: usize, byte: u8, msg: &'static str, pos: usize, off: (usize, usize)| {
        let mut bad = w.clone();
        bad[at] = byte;
        assert_eq!(read_head(&bad), Err(Error::read(msg, pos, off)));
    };
    check(7, b'X', "unexpected contents (expected PIPPINSS or PIPPINCL)", 0, (0, 8));
    check(16, b'r', "unexpected contents (expected REPONAME)", 16, (0, 8));
    check(33, 0, "invalid repository name", 32, (0, 4));
    check(33, 0xFF, "invalid repository name", 32, (0, 4));
    check(63, 1, "invalid partition identifier", 48, (8, 16));
    check(64, b'u', "unexpected contents (expected user data or HEADER END)", 64, (0, 8));
    check(80, 0xC0, "content not valid UTF-8", 80, (0, 1));
    assert_eq!(read_head(&w[..20]), Err(Error::read("unexpected end of data", 0, (0, 20))));
    assert_eq!(
        read_head(&w[..w.len() - 1]),
        Err(Error::read("unexpected end of data", 96, (0, 15)))
    );
}
