use robodoan::util::stackvec::StackVec;

#[test]
fn test_stackvec_merge() {
    let mut a = StackVec::<(u8, u8), 16>::new();
    a = a.push((1, 12)).unwrap();
    a = a.push((1, 6)).unwrap();
    a = a.push((2, 1)).unwrap();
    a = a.push((6, 92)).unwrap();
    a = a.push((1, 4)).unwrap();
    a = a.push((2, 9)).unwrap();
    a = a.push((3, 14)).unwrap();
    a = a.push((1, 3)).unwrap();
    let mut sorted = a.as_slice().to_vec();
    sorted.sort_unstable();
}

#[test]
fn stackvec_capacity() {
    let a = StackVec::<u8, 2>::new();
    let a = a.push(1).unwrap();
    let a = a.push(2).unwrap();
    assert!(a.clone().push(3).is_none());
    assert_eq!(a.as_slice(), &[1, 2]);
    assert!(StackVec::<u8, 2>::from_slice(&[1, 2, 3]).is_none());
    let b = StackVec::<u8, 4>::from_iter(&[5, 6]).unwrap();
    assert_eq!(b.len(), 2);
    assert_eq!(b.get(1), 6);
    let c = b.clone().extend(&[7, 8]).unwrap();
    assert_eq!(c.as_slice(), &[5, 6, 7, 8]);
    assert!(b.extend(&[7, 8, 9]).is_none());
    let d = c.map(|x: u8| x as u16 * 2);
    assert_eq!(d.as_slice(), &[10u16, 12, 14, 16]);
}
