use pippin::error::{ArgError, Error, MatchError, PatchOp, ReadError, ReplayError, TipError};
use pippin::text::{digit_str, push_decimal, push_hex, push_repeated};

#[test]
fn numbers_as_text() {
    let mut s = String::from("n=");
    push_decimal(&mut s, 0);
    s.push(',');
    push_decimal(&mut s, 7);
    s.push(',');
    push_decimal(&mut s, 10);
    s.push(',');
    push_decimal(&mut s, 1234567890);
    s.push(',');
    push_decimal(&mut s, usize::MAX);
    assert_eq!(s, format!("n=0,7,10,1234567890,{}", usize::MAX));
    let mut h = String::new();
    push_hex(&mut h, 0x00);
    push_hex(&mut h, 0x9A);
    push_hex(&mut h, 0xFF);
    assert_eq!(h, "009AFF");
    assert_eq!(digit_str(11), "B");
    let mut r = String::from("<");
    push_repeated(&mut r, "ab", 3);
    push_repeated(&mut r, "c", 0);
    assert_eq!(r, "<ababab");
}

#[test]
fn read_error_with_its_data() {
    let data: Vec<u8> = b"0123456789ABCDEFghijklmn\xFFpqrstuvwxyz".to_vec();
    let err = ReadError::new("something is wrong", 8, (3, 10));
    let text = err.display(&data).render();
    let expected = [
        "read error (pos 8, offset (3, 10)): something is wrong",
        "38 39 41 42 43 44 45 46 89ABCDEF",
        "         ^^^^^^^^^^^^^^    ^^^^^",
        "67 68 69 6A 6B 6C 6D 6E ghijklmn",
        "^^^^^                   ^^",
        "",
    ]
    .join("\n");
    assert_eq!(text, expected);
    // the bytes that are no text are shown by the replacement character
    let err = ReadError::new("m", 24, (0, 1));
    assert_eq!(
        err.display(&data).render(),
        "read error (pos 24, offset (0, 1)): m\n\
         FF 70 71 72 73 74 75 76 \u{FFFD}pqrstuv\n\
         ^^                     \x20^\n"
    );
    // data that end before the line does
    let err = ReadError::new("m", 32, (0, 8));
    assert_eq!(
        err.display(&data).render(),
        "read error (pos 32, offset (0, 8)): m\ninsufficient data to display!\n"
    );
    // nothing to mark
    let err = ReadError::new("m", 0, (16, 16));
    assert_eq!(
        err.display(&data).render(),
        "read error (pos 0, offset (16, 16)): m\n"
    );
    let err = ReadError::new("m", usize::MAX, (usize::MAX, usize::MAX));
    assert_eq!(
        err.display(&data).render(),
        format!(
            "read error (pos {0}, offset ({0}, {0})): m\ninsufficient data to display!\n",
            usize::MAX
        )
    );
    assert_eq!(err.to_text(), format!("Position {0}, offset ({0}, {0}): m", usize::MAX));
}

#[test]
fn errors_as_text() {
    assert_eq!(Error::read("bad", 1, (2, 3)), Error::Read(ReadError::new("bad", 1, (2, 3))));
    assert_eq!(Error::read("bad", 1, (2, 3)).to_text(), "Position 1, offset (2, 3): bad");
    assert_eq!(Error::read("bad", 1, (2, 3)).description(), "bad");
    assert_eq!(Error::arg("no"), Error::Arg(ArgError { msg: "no" }));
    assert_eq!(Error::arg("no").to_text(), "Invalid argument: no");
    assert_eq!(Error::arg("no").description(), "no");
    assert_eq!(Error::no_elt("gone"), Error::NoEltFound("gone"));
    assert_eq!(Error::no_elt("gone").to_text(), "gone");
    assert_eq!(Error::replay("lost"), Error::Replay(ReplayError { msg: "lost" }));
    assert_eq!(Error::replay("lost").to_text(), "Failed to recreate state from log: lost");
    assert_eq!(Error::replay("lost").description(), "lost");
    assert_eq!(Error::Io("disk").to_text(), "disk");
    assert_eq!(Error::Encoding("utf").to_text(), "utf");
    assert_eq!(Error::Other("else").to_text(), "else");
    assert_eq!(Error::Tip(TipError::NotReady).to_text(), "partition not ready: no tip found");
    assert_eq!(
        Error::Tip(TipError::MergeRequired).description(),
        "partition not ready: merge required"
    );
    assert_eq!(Error::Patch(PatchOp::NoParent).to_text(), "the parent state is not known");
    assert_eq!(Error::Patch(PatchOp::SumClash).to_text(), "a state with this sum is known already");
    assert_eq!(Error::Patch(PatchOp::PatchApply).to_text(), "the commit does not apply");
    assert_eq!(Error::Match(MatchError::NoMatch).to_text(), "no matching state");
    let multi = MatchError::MultiMatch("AB".to_string(), "AC".to_string());
    assert_eq!(multi.description(), "several matching states");
    assert_eq!(Error::Match(multi).to_text(), "several matching states: AB, AC");
}
