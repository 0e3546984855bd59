use lattica_prover_p3::spill_alloc::{
    is_armed, must_clear, put_u64, read_hdr, reset_spill_peak, spill_path, spill_peak_bytes,
    spill_stats, write_hdr, Header, Placement, Release, SpillAlloc, SpillScope, MAGIC_MMAP,
    MAGIC_SYS, PAGE, THRESHOLD,
};

fn header(p: &Placement) -> Header {
    match p {
        Placement::Mapped { header } => *header,
        Placement::System { header } => *header,
        Placement::Direct => panic!("no header"),
    }
}

#[test]
fn spill_roundtrip_armed_and_unarmed() {
    let mut a = SpillAlloc::new();
    let n = (THRESHOLD / 8) + 4096;
    {
        assert!(!a.tries_mapping(n * 8, 8));
        let p = a.allocate(n * 8, 8, None);
        assert!(matches!(p, Placement::System { .. }));
        assert_eq!(spill_stats(&a), (0, 0));
        let r = a.release(n * 8, 8, &header(&p));
        assert!(matches!(r, Release::System { .. }));
    }
    {
        let g = SpillScope::arm(&mut a);
        assert!(a.tries_mapping(n * 8, 8));
        let p = a.allocate(n * 8, 8, Some(7));
        let (count, bytes) = spill_stats(&a);
        assert!(count >= 1);
        assert!(bytes as usize >= n * 8);
        let h = read_hdr(&write_hdr(&header(&p)));
        let r = a.release(n * 8, 8, &h);
        assert_eq!(r, Release::Unmap { fd: 7, total: bytes });
        assert_eq!(spill_stats(&a), (0, 0));
        g.disarm(&mut a);
    }
    assert!(!is_armed(&a));
}

#[test]
fn spill_alloc_zeroed_is_zero() {
    let mut a = SpillAlloc::new();
    let _g = SpillScope::arm(&mut a);
    let n = (THRESHOLD / 8) + 4096;
    let mapped = a.allocate(n * 8, 8, Some(3));
    assert!(!must_clear(&mapped));
    let fallback = a.allocate(n * 8, 8, None);
    assert!(must_clear(&fallback));
    assert!(!must_clear(&Placement::Direct));
}

#[test]
fn small_blocks_go_to_the_system() {
    let mut a = SpillAlloc::new();
    let _g = SpillScope::arm(&mut a);
    assert_eq!(a.allocate(THRESHOLD - 1, 8, Some(3)), Placement::Direct);
    assert_eq!(a.allocate(THRESHOLD, 2 * PAGE, Some(3)), Placement::Direct);
    assert_eq!(a.counter, 0);
    assert_eq!(
        a.release(THRESHOLD - 1, 8, &Header { magic: MAGIC_MMAP, fd: 3, total: 9 }),
        Release::Direct
    );
}

#[test]
fn blocks_have_a_page_for_the_header() {
    let mut a = SpillAlloc::new();
    let _g = SpillScope::arm(&mut a);
    let p = a.allocate(THRESHOLD + 1, 8, Some(11));
    let want = (PAGE + THRESHOLD + PAGE) as u64;
    assert_eq!(
        p,
        Placement::Mapped { header: Header { magic: MAGIC_MMAP, fd: 11, total: want } }
    );
    assert_eq!(spill_stats(&a), (1, want));
}

#[test]
fn the_peak_outlives_the_blocks() {
    let mut a = SpillAlloc::new();
    let _g = SpillScope::arm(&mut a);
    let p = a.allocate(THRESHOLD, 8, Some(1));
    let q = a.allocate(THRESHOLD, 8, Some(2));
    let both = 2 * (PAGE + THRESHOLD) as u64;
    assert_eq!(spill_peak_bytes(&a), both);
    a.release(THRESHOLD, 8, &header(&p));
    a.release(THRESHOLD, 8, &header(&q));
    assert_eq!(spill_stats(&a), (0, 0));
    assert_eq!(spill_peak_bytes(&a), both);
    reset_spill_peak(&mut a);
    assert_eq!(spill_peak_bytes(&a), 0);
    assert_eq!(a.counter, 2);
}

#[test]
fn a_failed_mapping_falls_back() {
    let mut a = SpillAlloc::new();
    let _g = SpillScope::arm(&mut a);
    let p = a.allocate(THRESHOLD, 8, None);
    let want = Header { magic: MAGIC_SYS, fd: -1, total: (PAGE + THRESHOLD) as u64 };
    assert_eq!(p, Placement::System { header: want });
    assert_eq!(a.counter, 1);
    assert_eq!(spill_stats(&a), (0, 0));
}

#[test]
fn scopes_nest() {
    let mut a = SpillAlloc::new();
    let g = SpillScope::arm(&mut a);
    let h = SpillScope::arm(&mut a);
    h.disarm(&mut a);
    assert!(is_armed(&a));
    g.disarm(&mut a);
    assert!(!is_armed(&a));
}

#[test]
fn an_unknown_header_is_left_to_the_system() {
    let mut a = SpillAlloc::new();
    let h = Header { magic: 5, fd: 6, total: 7 };
    assert_eq!(a.release(THRESHOLD, 8, &h), Release::Direct);
    assert_eq!(read_hdr(&write_hdr(&h)), h);
}

#[test]
fn numbers_are_written_in_decimal() {
    let mut buf: Vec<u8> = vec![b'.'; 24];
    assert_eq!(put_u64(&mut buf, 2, 0), 3);
    assert_eq!(&buf[..4], b"..0.");
    assert_eq!(put_u64(&mut buf, 0, 1024), 4);
    assert_eq!(&buf[..5], b"1024.");
    assert_eq!(put_u64(&mut buf, 1, u64::MAX), 21);
    assert_eq!(&buf[..22], b"118446744073709551615.");
}

#[test]
fn files_are_named_by_process_and_number() {
    assert_eq!(spill_path(b"/tmp", 42, 7), b"/tmp/lat-spill-42-7.tmp\0".to_vec());
    let long = vec![b'd'; 300];
    let path = spill_path(&long, 0, 0);
    assert_eq!(&path[..256], &[&vec![b'd'; 255][..], b"/"].concat()[..]);
    assert_eq!(&path[255..], b"/lat-spill-0-0.tmp\0");
}
