use git_odb::refspec::{Fetch, Instruction, Mode, Operation, Push, RefSpecRef};

fn make_spec<'a>(
    mode: Mode,
    op: Operation,
    src: Option<&'a [u8]>,
    dst: Option<&'a [u8]>,
) -> RefSpecRef<'a> {
    RefSpecRef { mode, op, src, dst }
}

#[test]
fn mode_is_returned() {
    let r = make_spec(Mode::Force, Operation::Fetch, Some(&b"a"[..]), None);
    assert_eq!(r.mode(), Mode::Force);
    let r = make_spec(Mode::Negative, Operation::Fetch, Some(&b"a"[..]), None);
    assert_eq!(r.mode(), Mode::Negative);
}

#[test]
fn fetch_only_and_exclude() {
    let r = make_spec(Mode::Normal, Operation::Fetch, Some(&b"refs/heads/main"[..]), None);
    assert!(matches!(
        r.instruction(),
        Instruction::Fetch(Fetch::Only { src }) if src == &b"refs/heads/main"[..]
    ));

    let r = make_spec(Mode::Negative, Operation::Fetch, Some(&b"refs/tags/*"[..]), None);
    assert!(matches!(
        r.instruction(),
        Instruction::Fetch(Fetch::Exclude { src }) if src == &b"refs/tags/*"[..]
    ));
}

#[test]
fn fetch_and_update_tracks_force() {
    let r = make_spec(
        Mode::Normal,
        Operation::Fetch,
        Some(&b"a"[..]),
        Some(&b"b"[..]),
    );
    assert!(matches!(
        r.instruction(),
        Instruction::Fetch(Fetch::AndUpdate { src, dst, allow_non_fast_forward })
            if src == &b"a"[..] && dst == &b"b"[..] && !allow_non_fast_forward
    ));

    let r = make_spec(Mode::Force, Operation::Fetch, Some(&b"a"[..]), Some(&b"b"[..]));
    assert!(matches!(
        r.instruction(),
        Instruction::Fetch(Fetch::AndUpdate { allow_non_fast_forward, .. })
            if allow_non_fast_forward
    ));
}

#[test]
fn push_source_only_matches_itself() {
    let r = make_spec(Mode::Normal, Operation::Push, Some(&b"refs/heads/dev"[..]), None);
    assert!(matches!(
        r.instruction(),
        Instruction::Push(Push::Matching { src, dst, allow_non_fast_forward })
            if src == &b"refs/heads/dev"[..] && dst == &b"refs/heads/dev"[..] && !allow_non_fast_forward
    ));
}

#[test]
fn push_delete_and_all_matching() {
    let r = make_spec(Mode::Normal, Operation::Push, None, Some(&b"refs/heads/gone"[..]));
    assert!(matches!(
        r.instruction(),
        Instruction::Push(Push::Delete { ref_or_pattern }) if ref_or_pattern == &b"refs/heads/gone"[..]
    ));

    let r = make_spec(Mode::Force, Operation::Push, None, None);
    assert!(matches!(
        r.instruction(),
        Instruction::Push(Push::AllMatchingBranches { allow_non_fast_forward })
            if allow_non_fast_forward
    ));
}

#[test]
fn push_with_both_sides() {
    let r = make_spec(Mode::Force, Operation::Push, Some(&b"a"[..]), Some(&b"b"[..]));
    assert!(matches!(
        r.instruction(),
        Instruction::Push(Push::Matching { src, dst, allow_non_fast_forward })
            if src == &b"a"[..] && dst == &b"b"[..] && allow_non_fast_forward
    ));
}

#[test]
fn to_owned_copies_all_fields() {
    let r = make_spec(Mode::Force, Operation::Push, Some(&b"a"[..]), Some(&b"b"[..]));
    let owned = r.to_owned();
    assert_eq!(owned.mode, Mode::Force);
    assert_eq!(owned.op, Operation::Push);
    assert_eq!(owned.src, Some(b"a".to_vec()));
    assert_eq!(owned.dst, Some(b"b".to_vec()));

    let r = make_spec(Mode::Normal, Operation::Fetch, Some(&b"only"[..]), None);
    let owned = r.to_owned();
    assert_eq!(owned.mode, Mode::Normal);
    assert_eq!(owned.op, Operation::Fetch);
    assert_eq!(owned.src, Some(b"only".to_vec()));
    assert_eq!(owned.dst, None);
}
