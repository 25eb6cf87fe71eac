use autoken::pair::Pair;

#[test]
fn pair_rev_swaps_and_marks() {
    let p = Pair::new(1u32, 2u32);
    let r = p.rev();
    assert_eq!(r.left, 2);
    assert_eq!(r.right, 1);
    assert!(r.reversed);
}

#[test]
fn pair_natural_undoes_reversal() {
    let p = Pair::new(1u32, 2u32).rev().rev().rev();
    let n = p.natural();
    assert_eq!(n.left, 1);
    assert_eq!(n.right, 2);
    assert!(!n.reversed);
}
