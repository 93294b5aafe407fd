use puffyrs::vis::write_vis_byte;

fn vis(byte: u8) -> Vec<u8> {
    let mut out = Vec::new();
    write_vis_byte(&mut out, byte).unwrap();
    out
}

#[test]
fn vis_printable_passes_through() {
    assert_eq!(vis(b'a'), b"a");
    assert_eq!(vis(b' '), b" ");
    assert_eq!(vis(b'~'), b"~");
    assert_eq!(vis(b'^'), b"^");
}

#[test]
fn vis_control_characters() {
    assert_eq!(vis(0x00), b"^@");
    assert_eq!(vis(0x01), b"^A");
    assert_eq!(vis(b'\n'), b"^J");
    assert_eq!(vis(0x1f), b"^_");
}

#[test]
fn vis_delete() {
    assert_eq!(vis(0x7f), b"^?");
}

#[test]
fn vis_meta_bytes() {
    assert_eq!(vis(0x80), b"M-^@");
    assert_eq!(vis(0xe1), b"M-a");
    assert_eq!(vis(0xff), b"M-^?");
    assert_eq!(vis(0xa0), b"M- ");
}

#[test]
fn vis_appends_to_existing_output() {
    let mut out = b"x".to_vec();
    write_vis_byte(&mut out, 0x07).unwrap();
    assert_eq!(out, b"x^G");
}

#[test]
fn vis_is_unambiguous_and_printable() {
    let mut seen: Vec<Vec<u8>> = Vec::new();
    for b in 0..=255u8 {
        let v = vis(b);
        assert!(v.iter().all(|&c| (0x20..=0x7e).contains(&c)));
        assert!(!seen.contains(&v));
        seen.push(v);
    }
}
