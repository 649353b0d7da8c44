use pippin::commit::{Commit, CommitMeta, EltChange, ExtraMeta};
use pippin::elt::Element;
use pippin::idmap::IdMap;
use pippin::ids::{EltId, PartId};
use pippin::readwrite::commitlog::{read_log, start_log, write_commit};
use pippin::readwrite::snapshot::{read_snapshot, write_snapshot};
use pippin::state::PartState;
use pippin::sum::Sum;

#[test]
fn commit_write_read() {
    // Element checksums must match; state sums need not, since no state is
    // reproduced here.
    let mut v: Vec<u8> = (0u8..).take(32).collect();
    let seq = Sum::load(&v);
    v = (0u8..).map(|x| x.wrapping_mul(x)).take(32).collect();
    let squares = Sum::load(&v);
    v = (1u8..).map(|x| x.wrapping_add(7u8).wrapping_mul(3u8)).take(32).collect();
    let nonsense = Sum::load(&v);
    v = (1u8..)
        .map(|x| x.wrapping_mul(x).wrapping_add(5u8.wrapping_mul(x)).wrapping_add(11u8))
        .take(32)
        .collect();
    let quadr = Sum::load(&v);

    let p = PartId::from_num(1681);
    let mut changes = IdMap::new();
    changes.insert(p.elt_id(3).id, EltChange::insertion(Element::from_text("three")));
    changes.insert(p.elt_id(4).id, EltChange::insertion(Element::from_text("four")));
    changes.insert(p.elt_id(5).id, EltChange::insertion(Element::from_text("five")));
    let meta1 = CommitMeta::new_explicit(1, 123456, ExtraMeta::Empty);
    let commit_1 = Commit::new_explicit(seq, vec![squares], changes, meta1);

    changes = IdMap::new();
    changes.insert(p.elt_id(1).id, EltChange::deletion());
    changes.insert(p.elt_id(9).id, EltChange::replacement(Element::from_text("NINE!")));
    changes.insert(p.elt_id(5).id, EltChange::insertion(Element::from_text("five again?")));
    let meta2 = CommitMeta::new_explicit(1, 321654, ExtraMeta::Text("123".to_string()));
    let commit_2 = Commit::new_explicit(nonsense, vec![quadr], changes, meta2);

    let mut obj = Vec::new();
    assert!(start_log(&mut obj).is_ok());
    assert!(write_commit(&commit_1, &mut obj).is_ok());
    assert!(write_commit(&commit_2, &mut obj).is_ok());

    let mut commits = Vec::new();
    match read_log(&obj, 0, &mut commits) {
        Ok(()) => {}
        Err(e) => {
            panic!("read_log failed: {:?}", e);
        }
    }

    assert_eq!(commits.len(), 2);
    assert_eq!(commits[0], commit_1);
    assert_eq!(commits[1], commit_2);
}

#[test]
fn snapshot_writing() {
    let part = PartId::from_num(0xFEDCBA9876);
    let mut state = PartState::new(part).clone_mut();
    let data = "But I must explain to you how all this \
        mistaken idea of denouncing pleasure and praising pain was born and I \
        will give you a complete account of the system, and expound the \
        actual teachings of the great explorer of the truth, the master-\
        builder of human happiness. No one rejects, dislikes, or avoids \
        pleasure itself, because it is pleasure, but because those who do not \
        know how to pursue pleasure rationally encounter consequences that \
        are extremely painful. Nor again is there anyone who loves or pursues \
        or desires to obtain pain of itself, because it is pain, but because \
        occasionally circumstances occur in which toil and pain can procure \
        him some great pleasure. To take a trivial example, which of us ever \
        undertakes laborious physical exercise, except to obtain some \
        advantage from it? But who has any right to find fault with a man who \
        chooses to enjoy a pleasure that has no annoying consequences, or one \
        who avoids a pain that produces no resultant pleasure?";
    state.insert_with_id(part.elt_id(1), Element::from_text(data)).unwrap();
    let data = "arstneio[()]123%αρστνειο\
        qwfpluy-QWFPLUY—<{}>456+5≤≥φπλθυ−\
        zxcvm,./ZXCVM;:?`\"ç$0,./ζχψωμ~·÷";
    state.insert_with_id(EltId::from_raw(0xFEDCBA9876543210), Element::from_text(data)).unwrap();
    let state = PartState::from_mut(state, vec![], CommitMeta::blank());

    let mut result = Vec::new();
    assert!(write_snapshot(&state, &mut result).is_ok());

    let state2 = read_snapshot(&result, 0, part).unwrap();
    assert_eq!(state, state2);
}
