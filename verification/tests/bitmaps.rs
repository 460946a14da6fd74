use process_icon::bitmap::{bitmap_size, icon_was_extracted, rgba_from_bgra, wide_path_buffer, PATH_BUFFER_LEN};

/// The path buffer as the UTF-16 encoder of the standard library fills it.
fn buffer_by_std(path: &str) -> Vec<u16> {
    let wide: Vec<u16> = path.encode_utf16().chain(Some(0)).collect();
    let mut buf = [0u16; 260];
    let copy_len = wide.len().min(buf.len() - 1);
    buf[..copy_len].copy_from_slice(&wide[..copy_len]);
    buf.to_vec()
}

#[test]
fn path_buffer_of_a_short_path() {
    let buf = wide_path_buffer("C:\\Windows\\notepad.exe");
    assert_eq!(PATH_BUFFER_LEN, 260);
    assert_eq!(buf.len(), 260);
    assert_eq!(buf[0], 'C' as u16);
    assert_eq!(buf[21], 'e' as u16);
    assert!(buf[22..].iter().all(|&u| u == 0));
}

#[test]
fn path_buffer_encodes_surrogate_pairs() {
    let buf = wide_path_buffer("a𝄞b");
    assert_eq!(&buf[..5], &[0x61, 0xD834, 0xDD1E, 0x62, 0]);
}

#[test]
fn long_paths_are_cut_and_stay_terminated() {
    let long = "x".repeat(300);
    let buf = wide_path_buffer(&long);
    assert_eq!(buf.len(), 260);
    assert!(buf[..259].iter().all(|&u| u == 'x' as u16));
    assert_eq!(buf[259], 0);
}

#[test]
fn path_buffers_agree_with_std() {
    for path in ["", "C:\\a.exe", "é€𝄞", &"ab𝄞".repeat(90), &"y".repeat(258), &"y".repeat(259), &"y".repeat(260)] {
        assert_eq!(wide_path_buffer(path), buffer_by_std(path), "{path:?}");
    }
}

#[test]
fn pixels_become_rgba() {
    let rgba = rgba_from_bgra(&vec![0x80112233, 0xFF000000, 0x00FFFFFF]).unwrap();
    assert_eq!(rgba, vec![0x11, 0x22, 0x33, 0x80, 0, 0, 0, 0xFF, 0xFF, 0xFF, 0xFF, 0]);
    assert_eq!(rgba_from_bgra(&Vec::new()), Some(Vec::new()));
}

#[test]
fn pixels_agree_with_little_endian_swap() {
    let pixels: Vec<u32> = (0..1000u32).map(|i| i.wrapping_mul(2654435761)).collect();
    let by_swap: Vec<u8> = pixels
        .iter()
        .flat_map(|p| p.to_le_bytes())
        .collect::<Vec<u8>>()
        .chunks_exact(4)
        .flat_map(|px| [px[2], px[1], px[0], px[3]])
        .collect();
    assert_eq!(rgba_from_bgra(&pixels), Some(by_swap));
}

#[test]
fn bitmap_sizes() {
    assert_eq!(bitmap_size(32, -32), Some((32, 32, 1024)));
    assert_eq!(bitmap_size(-48, 48), Some((48, 48, 2304)));
    assert_eq!(bitmap_size(0, 16), Some((0, 16, 0)));
    assert_eq!(bitmap_size(i32::MIN, 1), Some((2147483648, 1, 2147483648)));
}

#[test]
fn extraction_results() {
    assert!(icon_was_extracted(1, false));
    assert!(!icon_was_extracted(0, false));
    assert!(!icon_was_extracted(u32::MAX, false));
    assert!(!icon_was_extracted(1, true));
}
