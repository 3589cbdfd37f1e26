use mobiless::{is_source, process_mobi_file, FormatError, MobiFile};

const NONE: u32 = 0xffff_ffff;

fn be32(data: &[u8], pos: usize) -> u32 {
    u32::from_be_bytes([data[pos], data[pos + 1], data[pos + 2], data[pos + 3]])
}

fn put32(data: &mut [u8], pos: usize, v: u32) {
    data[pos..pos + 4].copy_from_slice(&v.to_be_bytes());
}

/// A header record of 0x100 bytes naming `[first, first + count)` as source.
fn header(first: u32, count: u32, title: &[u8]) -> Vec<u8> {
    let mut h = vec![0u8; 0xf0 + title.len()];
    h[0x10..0x14].copy_from_slice(b"MOBI");
    put32(&mut h, 0x1c, 65001);
    put32(&mut h, 0x24, 6);
    put32(&mut h, 0x54, 0xf0);
    put32(&mut h, 0x58, title.len() as u32);
    put32(&mut h, 0xe0, first);
    put32(&mut h, 0xe4, count);
    h[0xf0..].copy_from_slice(title);
    h
}

fn filler(len: usize, byte: u8) -> Vec<u8> {
    vec![byte; len]
}

/// A container with the given sections, laid out after the table.
fn container(sections: &[Vec<u8>]) -> Vec<u8> {
    let n = sections.len();
    let mut data = vec![0u8; 0x4e + 8 * n + 2];
    data[0x3c..0x44].copy_from_slice(b"BOOKMOBI");
    data[0x4c..0x4e].copy_from_slice(&(n as u16).to_be_bytes());
    for (i, s) in sections.iter().enumerate() {
        let off = data.len() as u32;
        put32(&mut data, 0x4e + 8 * i, off);
        put32(&mut data, 0x4e + 8 * i + 4, 0x0100_0000 + i as u32);
        data.extend_from_slice(s);
    }
    data
}

fn offsets(data: &[u8]) -> Vec<u32> {
    let n = u16::from_be_bytes([data[0x4c], data[0x4d]]) as usize;
    (0..n).map(|i| be32(data, 0x4e + 8 * i)).collect()
}

#[test]
fn removes_one_flagged_section() {
    let s2 = filler(50, 0xcc);
    let data = container(&[header(1, 1, b"Book"), filler(100, 0xaa), s2.clone()]);
    let before = offsets(&data);
    let len = data.len();
    let mut out = data.clone();
    let n = process_mobi_file(&mut out).unwrap();
    assert_eq!(n, len - 100);
    let after = offsets(&out);
    assert_eq!(after[0], before[0]);
    assert_eq!(after[1], before[1]);
    assert_eq!(after[2], before[2] - 100);
    assert_eq!(&out[after[2] as usize..n], &s2[..]);
    assert!(!out[..n].contains(&0xaa));
    assert_eq!(&out[..before[0] as usize], &{
        let mut d = data[..before[0] as usize].to_vec();
        put32(&mut d, 0x4e + 16, before[2] - 100);
        d
    }[..]);
    let h = after[0] as usize;
    assert_eq!(be32(&out, h + 0xe0), NONE);
    assert_eq!(be32(&out, h + 0xe4), 0);
    assert_eq!(out.len(), len);
}

#[test]
fn two_generations_both_removed_and_cleared() {
    let data = container(&[
        header(4, 1, b"Old"),
        filler(20, 0x11),
        b"BOUNDARY".to_vec(),
        header(5, 1, b"New"),
        filler(30, 0xaa),
        filler(40, 0xbb),
        filler(10, 0x22),
    ]);
    let before = offsets(&data);
    let file = MobiFile::new(data.clone(), data.len()).unwrap();
    assert_eq!(file.mobi_section_indice, vec![0, 3]);
    let mut out = data.clone();
    let n = process_mobi_file(&mut out).unwrap();
    assert_eq!(n, data.len() - 70);
    let after = offsets(&out);
    assert_eq!(after[4], before[4]);
    assert_eq!(after[5], before[5] - 30);
    assert_eq!(after[6], before[6] - 70);
    assert!(!out[..n].contains(&0xaa));
    assert!(!out[..n].contains(&0xbb));
    assert_eq!(&out[after[6] as usize..n], &filler(10, 0x22)[..]);
    for &h in &[0usize, 3] {
        let p = after[h] as usize;
        assert_eq!(be32(&out, p + 0xe0), NONE);
        assert_eq!(be32(&out, p + 0xe4), 0);
    }
}

#[test]
fn sentinel_or_zero_count_names_nothing() {
    let data = container(&[
        header(NONE, 3, b"A"),
        filler(20, 0x11),
        b"BOUNDARY".to_vec(),
        header(1, 0, b"B"),
        filler(30, 0x33),
    ]);
    let mut out = data.clone();
    let n = process_mobi_file(&mut out).unwrap();
    assert_eq!(n, data.len());
    assert_eq!(offsets(&out), offsets(&data));
    let o = offsets(&data);
    assert_eq!(be32(&out, o[0] as usize + 0xe4), 0);
    assert_eq!(be32(&out, o[3] as usize + 0xe0), NONE);
    for p in 0..data.len() {
        let in_desc = [o[0] as usize, o[3] as usize].iter().any(|&h| p >= h + 0xe0 && p < h + 0xe8);
        if !in_desc {
            assert_eq!(out[p], data[p]);
        }
    }
}

#[test]
fn zero_count_generation_beside_a_removing_one() {
    let data = container(&[
        header(1, 0, b"A"),
        filler(20, 0x11),
        b"BOUNDARY".to_vec(),
        header(4, 1, b"B"),
        filler(30, 0xaa),
        filler(5, 0x22),
    ]);
    let mut out = data.clone();
    let n = process_mobi_file(&mut out).unwrap();
    assert_eq!(n, data.len() - 30);
    assert!(out[..n].windows(20).any(|w| w == &filler(20, 0x11)[..]));
}

#[test]
fn no_removal_is_byte_for_byte_noop() {
    let data = container(&[header(NONE, 0, b"Same"), filler(64, 0x5a), filler(3, 0x01)]);
    let mut out = data.clone();
    let n = process_mobi_file(&mut out).unwrap();
    assert_eq!(n, data.len());
    assert_eq!(out, data);
}

#[test]
fn second_run_changes_nothing() {
    let data = container(&[header(2, 2, b"Twice"), filler(10, 0x01), filler(20, 0xaa), filler(30, 0xbb), filler(4, 0x02)]);
    let mut once = data.clone();
    let n1 = process_mobi_file(&mut once).unwrap();
    assert_eq!(n1, data.len() - 50);
    once.truncate(n1);
    let mut twice = once.clone();
    let n2 = process_mobi_file(&mut twice).unwrap();
    assert_eq!(n2, n1);
    assert_eq!(twice, once);
}

#[test]
fn missing_magic_is_refused_unchanged() {
    let mut data = container(&[header(1, 1, b"X"), filler(10, 0xaa)]);
    data[0x3c] = b'X';
    let copy = data.clone();
    assert_eq!(process_mobi_file(&mut data), Err(FormatError::BadMagic));
    assert_eq!(data, copy);
    let mut short = vec![0u8; 10];
    assert_eq!(process_mobi_file(&mut short), Err(FormatError::BadMagic));
    assert_eq!(short, vec![0u8; 10]);
    assert!(matches!(MobiFile::new(copy, 0), Err(FormatError::BadMagic)));
}

#[test]
fn bad_table_is_refused() {
    let mut data = container(&[header(NONE, 0, b"X"), filler(10, 0x01), filler(10, 0x02)]);
    let copy = data.clone();
    let o = offsets(&data);
    put32(&mut data, 0x4e + 8, o[2] + 1);
    assert_eq!(process_mobi_file(&mut data), Err(FormatError::BadLayout));
    let mut zero = copy.clone();
    zero[0x4c] = 0;
    zero[0x4d] = 0;
    assert_eq!(process_mobi_file(&mut zero), Err(FormatError::BadLayout));
    let mut past = copy.clone();
    let end = past.len() as u32;
    put32(&mut past, 0x4e + 16, end + 1);
    assert_eq!(process_mobi_file(&mut past), Err(FormatError::BadLayout));
    assert!(matches!(MobiFile::new(copy.clone(), copy.len() + 1), Err(FormatError::BadLayout)));
}

#[test]
fn bad_header_is_refused() {
    let mut data = container(&[header(NONE, 0, b"X"), filler(10, 0x01)]);
    data[0x4e + 16 + 2 + 0x10] = b'm';
    let copy = data.clone();
    assert_eq!(process_mobi_file(&mut data), Err(FormatError::BadHeader));
    assert_eq!(data, copy);
    let short = container(&[filler(0x20, 0).iter().enumerate().map(|(i, _)| if (0x10..0x14).contains(&i) { b"MOBI"[i - 0x10] } else { 0 }).collect()]);
    assert!(matches!(MobiFile::new(short.clone(), short.len()), Err(FormatError::BadHeader)));
}

#[test]
fn bad_title_is_refused() {
    let mut data = container(&[header(NONE, 0, &[0xff, 0xfe]), filler(10, 0x01)]);
    let copy = data.clone();
    assert_eq!(process_mobi_file(&mut data), Err(FormatError::BadTitle));
    assert_eq!(data, copy);
    let mut far = container(&[header(NONE, 0, b"Ok"), filler(10, 0x01)]);
    let h = offsets(&far)[0] as usize;
    put32(&mut far, h + 0x58, 0x1000);
    assert!(matches!(MobiFile::new(far.clone(), far.len()), Err(FormatError::BadTitle)));
}

#[test]
fn header_fields_are_read() {
    let data = container(&[header(NONE, 0, "Título".as_bytes()), filler(10, 0x01)]);
    let file = MobiFile::new(data.clone(), data.len()).unwrap();
    let sec = file.get_section(0);
    assert_eq!(sec.start, offsets(&data)[0] as usize);
    assert_eq!(sec.get_version(&file.data), 6);
    assert_eq!(sec.get_encoding(&file.data), 65001);
    assert_eq!(sec.get_full_name(&file.data), Ok("Título".to_string()));
    assert_eq!(sec.get_source_section_indice(&file.data), None);
    assert!(sec.is_mobi(&file.data));
    assert!(!sec.is_boundary(&file.data));
    assert_eq!(file.read_bytes(0x3c, 8), b"BOOKMOBI");
    assert_eq!(file.get_section(1).end, data.len());
}

#[test]
fn boundary_must_be_exact_and_followed_by_header() {
    let data = container(&[
        header(NONE, 0, b"A"),
        b"BOUNDARYX".to_vec(),
        header(NONE, 0, b"B"),
        b"BOUNDARY".to_vec(),
        filler(0x20, 0x00),
        b"BOUNDARY".to_vec(),
    ]);
    let file = MobiFile::new(data.clone(), data.len()).unwrap();
    assert_eq!(file.mobi_section_indice, vec![0]);
}

#[test]
fn source_membership() {
    let sources = vec![None, Some((3u32, 2u32)), Some((10, 1))];
    assert!(!is_source(&sources, 2));
    assert!(is_source(&sources, 3));
    assert!(is_source(&sources, 4));
    assert!(!is_source(&sources, 5));
    assert!(is_source(&sources, 10));
    assert!(!is_source(&sources, 11));
    assert!(!is_source(&vec![Some((NONE - 1, 1))], NONE));
}

#[test]
fn remove_sources_on_opened_file() {
    let data = container(&[header(1, 2, b"Z"), filler(7, 0xaa), filler(9, 0xbb), filler(3, 0x33)]);
    let before = offsets(&data);
    let mut file = MobiFile::new(data.clone(), data.len()).unwrap();
    let n = file.remove_sources();
    assert_eq!(n, data.len() - 16);
    assert_eq!(file.length, n);
    let after = offsets(&file.data);
    assert_eq!(after[3], before[3] - 16);
    assert_eq!(after[2], before[2] - 7);
    assert_eq!(&file.data[after[3] as usize..n], &[0x33, 0x33, 0x33]);
}
