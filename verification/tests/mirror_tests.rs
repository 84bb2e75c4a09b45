use waypipe_core::mirror::{Mirror, MirrorError};

#[test]
fn test_mirror_type() {
    for use_mmap in [false, true] {
        let mut m = Mirror::new(1024, use_mmap).unwrap();
        let x = m.get_mut_range(0, 20).unwrap();
        m.write_range(&x, 0, &[1]);
        m.release(x);
        let y = m.get_mut_range(20, 100).unwrap();
        m.write_range(&y, 0, &[1]);
        m.release(y);

        m.extend(2048).unwrap();
        assert_eq!(m.len(), 2048);
        let a = m.get_mut_range(0, 10).unwrap();
        let b = m.get_mut_range(10, 1500).unwrap();
        let c = m.get_mut_range(15, 200);
        let d = m.get_mut_range(1600, 5000);
        assert!(c.is_none());
        assert!(m.read_range(&a)[0] == 1);
        assert!(m.read_range(&b)[10] == 1);
        assert!(d.is_none());
        // A range past the end stays reserved.
        assert!(m.get_mut_range(1700, 1800).is_none());
    }
}

#[test]
fn mirror_size_limits() {
    assert!(matches!(Mirror::new(usize::MAX, false), Err(MirrorError::TooLarge(_))));
    let mut m = Mirror::new(0, false).unwrap();
    assert_eq!(m.len(), 0);
    assert!(matches!(m.extend(usize::MAX), Err(MirrorError::TooLarge(_))));
    m.extend(16).unwrap();
    assert_eq!(m.len(), 16);
    let r = m.get_mut_range(0, 16).unwrap();
    assert!(m.read_range(&r).iter().all(|b| *b == 0));
}

#[test]
fn empty_range_is_refused() {
    let mut m = Mirror::new(64, false).unwrap();
    assert!(m.get_mut_range(8, 8).is_none());
    assert!(m.get_mut_range(8, 4).is_none());
    assert!(m.get_mut_range(0, 64).is_some());
}
