use pippin::commit::ExtraMeta;
use pippin::detail::part::{DummyPartIO, Partition};
use pippin::elt::Element;
use pippin::error::Error;
use pippin::ids::PartId;
use pippin::merge::{EltMerge, NoSolver, TakeFirst, TakeSecond, TwoWayMerge, TwoWaySolver};

fn forked() -> Partition<DummyPartIO> {
    let io = DummyPartIO::new(PartId::from_num(11));
    let mut part = Partition::create(io, "merge", vec![]).unwrap();
    let mut base = part.tip().unwrap().clone_mut();
    base.insert(Element::from_text("shared")).unwrap();
    base.insert(Element::from_text("contested")).unwrap();
    part.push_state(base, ExtraMeta::Empty).unwrap();
    let mut left = part.tip().unwrap().clone_mut();
    let mut right = part.tip().unwrap().clone_mut();
    let pid = PartId::from_num(11);
    left.insert_with_id(pid.elt_id(10), Element::from_text("only left")).unwrap();
    left.replace(pid.elt_id(1), Element::from_text("left says")).unwrap();
    right.insert_with_id(pid.elt_id(20), Element::from_text("only right")).unwrap();
    right.replace(pid.elt_id(1), Element::from_text("right says")).unwrap();
    assert_eq!(part.push_state(left, ExtraMeta::Empty), Ok(true));
    assert_eq!(part.push_state(right, ExtraMeta::Text("right".to_string())), Ok(true));
    part
}

#[test]
fn merge_of_two_tips() {
    let mut part = forked();
    assert!(part.merge_required());
    let states_before = part.num_states();
    let unsaved_before = part.unsaved.len();
    assert_eq!(part.merge(&TakeFirst), Ok(()));
    assert_eq!(part.tips.len(), 1);
    assert!(part.is_ready());
    assert_eq!(part.num_states(), states_before + 1);
    assert_eq!(part.unsaved.len(), unsaved_before + 1);
    let commit = part.unsaved.back().unwrap();
    assert_eq!(commit.parents().len(), 2);
    let pid = PartId::from_num(11);
    let tip = part.tip().unwrap();
    assert_eq!(tip.num_avail(), 4);
    assert_eq!(tip.get(pid.elt_id(0)).unwrap().text().unwrap(), "shared");
    assert_eq!(tip.get(pid.elt_id(10)).unwrap().text().unwrap(), "only left");
    assert_eq!(tip.get(pid.elt_id(20)).unwrap().text().unwrap(), "only right");
    // the conflict is decided for the first of the two tips, which are
    // taken in the order of their sums
    let first = part.state(&commit.parents()[0]).unwrap();
    assert_eq!(tip.get(pid.elt_id(1)), first.get(pid.elt_id(1)));
    assert_eq!(tip.parents(), commit.parents());
    assert!(commit.parents()[0].is_before(&commit.parents()[1]));
}

#[test]
fn merge_takes_the_second_tip_on_request() {
    let mut part = forked();
    assert_eq!(part.merge(&TakeSecond), Ok(()));
    let pid = PartId::from_num(11);
    let commit = part.unsaved.back().unwrap();
    let second = part.state(&commit.parents()[1]).unwrap();
    let tip = part.tip().unwrap();
    assert_eq!(tip.get(pid.elt_id(1)), second.get(pid.elt_id(1)));
    assert_eq!(tip.num_avail(), 4);
}

#[test]
fn merge_fails_without_a_decision() {
    let mut part = forked();
    assert_eq!(part.merge(&NoSolver), Err(Error::Other("merge failed")));
    assert_eq!(part.tips.len(), 2);
}

struct Custom;

impl TwoWaySolver for Custom {
    fn solve(&self, a: Option<&Element>, b: Option<&Element>, c: Option<&Element>) -> EltMerge {
        assert_eq!(c.unwrap().text().unwrap(), "contested");
        assert!(a.is_some() && b.is_some());
        EltMerge::Elt(Element::from_text("both were wrong"))
    }
}

#[test]
fn merge_with_a_solver_of_its_own() {
    let mut part = forked();
    assert_eq!(part.merge(&Custom), Ok(()));
    let pid = PartId::from_num(11);
    let tip = part.tip().unwrap();
    assert_eq!(tip.get(pid.elt_id(1)).unwrap().text().unwrap(), "both were wrong");
}

#[test]
fn merge_of_a_ready_partition_does_nothing() {
    let io = DummyPartIO::new(PartId::from_num(12));
    let mut part = Partition::create(io, "merge", vec![]).unwrap();
    assert_eq!(part.merge(&NoSolver), Ok(()));
    assert_eq!(part.unsaved.len(), 0);
    assert!(matches!(
        part.merge_two(),
        Err(Error::Other("merge_two() called when no states need merging"))
    ));
}

#[test]
fn merge_by_hand() {
    let mut part = forked();
    let commit = {
        let mut merger: TwoWayMerge = part.merge_two().unwrap();
        merger.solve(&TakeFirst);
        merger.make_commit(ExtraMeta::Empty).unwrap()
    };
    assert_eq!(part.push_commit(commit), Ok(()));
    assert!(!part.merge_required());
}
