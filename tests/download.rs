use cyusb::download::{Loader, Step, MAX_CHUNK};
use cyusb::image::{check_header, read_record, Record};
use cyusb::{Checksum, Error};

/// A control transfer as the device saw it: address and payload length.
type Call = (u32, usize);

fn le(v: u32) -> [u8; 4] {
    v.to_le_bytes()
}

fn image(segments: &[(u32, Vec<u8>)], entry: u32, checksum: u32) -> Vec<u8> {
    let mut out = vec![b'C', b'Y', 0x00, 0xb0];
    for (address, data) in segments {
        out.extend_from_slice(&le((data.len() / 4) as u32));
        out.extend_from_slice(&le(*address));
        out.extend_from_slice(data);
    }
    out.extend_from_slice(&le(0));
    out.extend_from_slice(&le(entry));
    out.extend_from_slice(&le(checksum));
    out
}

fn word_sum(data: &[u8]) -> u32 {
    data.chunks(4)
        .map(|c| u32::from_le_bytes([c[0], c[1], c[2], c[3]]))
        .fold(0u32, |a, w| a.wrapping_add(w))
}

/// Runs a download; `take` says how many bytes the device takes of a write
/// of `len` bytes. Returns the outcome, the data writes and the triggers.
fn run(img: Vec<u8>, take: impl Fn(usize) -> usize) -> (Result<(), Error>, Vec<Call>, Vec<Call>) {
    let mut writes = Vec::new();
    let mut triggers = Vec::new();
    let mut loader = match Loader::new(img) {
        Ok(l) => l,
        Err(e) => return (Err(e), writes, triggers),
    };
    let mut settled = false;
    for _ in 0..100_000 {
        match loader.next_step() {
            Err(e) => return (Err(e), writes, triggers),
            Ok(Step::Write { address, start, len }) => {
                assert!(start + len <= loader.image().len());
                writes.push((address, len));
                let n = take(len);
                loader.written(n);
            }
            Ok(Step::Settle) => settled = true,
            Ok(Step::Trigger { address }) => {
                assert!(settled);
                triggers.push((address, 0));
            }
            Ok(Step::Done) => return (Ok(()), writes, triggers),
        }
    }
    panic!("download did not finish");
}

#[test]
fn header_only_image_triggers_once() {
    let img = image(&[], 0x4000_0000, 0);
    assert_eq!(img.len(), 16);
    let (r, writes, triggers) = run(img, |n| n);
    assert!(r.is_ok());
    assert!(writes.is_empty());
    assert_eq!(triggers, vec![(0x4000_0000, 0)]);
}

#[test]
fn wrong_checksum_sends_no_trigger() {
    let (r, writes, triggers) = run(image(&[], 0x4000_0000, 1), |n| n);
    assert!(matches!(r, Err(Error::InvalidChecksum)));
    assert!(writes.is_empty());
    assert!(triggers.is_empty());
}

#[test]
fn segment_of_two_chunks() {
    let data: Vec<u8> = (0..8192u32).map(|i| (i * 7 + 3) as u8).collect();
    let sum = word_sum(&data);
    let (r, writes, triggers) = run(image(&[(0x4000_0000, data)], 0x4000_0000, sum), |n| n);
    assert!(r.is_ok());
    assert_eq!(writes, vec![(0x4000_0000, 4096), (0x4000_1000, 4096)]);
    assert_eq!(triggers, vec![(0x4000_0000, 0)]);
}

#[test]
fn chunk_count_is_rounded_up() {
    let data = vec![0x11u8; 10_000];
    let sum = word_sum(&data);
    let (r, writes, _) = run(image(&[(0x100, data)], 0x100, sum), |n| n);
    assert!(r.is_ok());
    assert_eq!(writes, vec![(0x100, 4096), (0x1100, 4096), (0x2100, 1808)]);
    assert_eq!(MAX_CHUNK, 4096);
}

#[test]
fn partial_writes_count_only_taken_bytes() {
    let data = vec![0xa5u8; 5000];
    let sum = word_sum(&data);
    let (r, writes, triggers) = run(image(&[(0x1000, data)], 0x2000, sum), |n| n.min(1000));
    assert!(r.is_ok());
    assert_eq!(
        writes,
        vec![(0x1000, 4096), (0x13e8, 4000), (0x17d0, 3000), (0x1bb8, 2000), (0x1fa0, 1000)]
    );
    assert_eq!(triggers, vec![(0x2000, 0)]);
}

#[test]
fn segments_go_out_in_file_order() {
    let a = vec![1u8, 0, 0, 0];
    let b = vec![2u8, 0, 0, 0, 3, 0, 0, 0];
    let (r, writes, triggers) = run(image(&[(0x10, a), (0x20, b)], 0x30, 6), |n| n);
    assert!(r.is_ok());
    assert_eq!(writes, vec![(0x10, 4), (0x20, 8)]);
    assert_eq!(triggers, vec![(0x30, 0)]);
}

#[test]
fn flipped_data_bit_fails_checksum() {
    let data: Vec<u8> = (0..64u8).collect();
    let sum = word_sum(&data);
    let mut img = image(&[(0x4000_0000, data)], 0x4000_0000, sum);
    img[12 + 17] ^= 0x08;
    let (r, _, triggers) = run(img, |n| n);
    assert!(matches!(r, Err(Error::InvalidChecksum)));
    assert!(triggers.is_empty());
}

#[test]
fn missing_magic() {
    let mut img = image(&[], 0, 0);
    img[1] = b'X';
    assert!(matches!(Loader::new(img), Err(Error::MissingMagic)));
    assert!(matches!(check_header(&[0, 0]), Err(Error::MissingMagic)));
}

#[test]
fn not_executable() {
    let mut img = image(&[], 0, 0);
    img[2] = 0x03;
    assert!(matches!(Loader::new(img), Err(Error::NotExecutable)));
}

#[test]
fn abnormal_firmware() {
    let mut img = image(&[], 0, 0);
    img[3] = 0xb1;
    assert!(matches!(Loader::new(img), Err(Error::AbnormalFirmware)));
}

#[test]
fn short_header_is_truncated() {
    assert!(matches!(check_header(&[]), Err(Error::TruncatedData { offset: 0, len: 4 })));
    assert!(matches!(check_header(b"CY\x00"), Err(Error::TruncatedData { offset: 0, len: 4 })));
    assert!(matches!(check_header(b"CYZ"), Err(Error::TruncatedData { offset: 0, len: 4 })));
}

#[test]
fn segment_past_end_is_truncated() {
    let mut img = vec![b'C', b'Y', 0, 0xb0];
    img.extend_from_slice(&le(3));
    img.extend_from_slice(&le(0x100));
    img.extend_from_slice(&[0u8; 8]);
    let (r, writes, _) = run(img, |n| n);
    assert!(matches!(r, Err(Error::TruncatedData { offset: 12, len: 12 })));
    assert!(writes.is_empty());
}

#[test]
fn missing_trailing_checksum_is_truncated() {
    let mut img = image(&[], 0x10, 0);
    img.truncate(14);
    let (r, _, triggers) = run(img, |n| n);
    assert!(matches!(r, Err(Error::TruncatedData { offset: 12, len: 4 })));
    assert!(triggers.is_empty());
}

#[test]
fn records_decode_little_endian() {
    let img = image(&[(0x1234_5678, vec![9, 9, 9, 9])], 0xdead_beef, 0);
    assert_eq!(
        read_record(&img, 4).unwrap(),
        (Record::Segment { address: 0x1234_5678, start: 12, len: 4 }, 16)
    );
    assert_eq!(
        read_record(&img, 16).unwrap(),
        (Record::Entry { address: 0xdead_beef, checksum: 0 }, 28)
    );
    assert!(matches!(read_record(&img, 26), Err(Error::TruncatedData { offset: 26, len: 4 })));
    assert!(matches!(read_record(&img, 22), Err(Error::TruncatedData { offset: 26, len: 4 })));
}

#[test]
fn checksum_wraps_around() {
    let mut c = Checksum::new();
    assert_eq!(c.value, 0);
    assert!(c.update(&[0xff, 0xff, 0xff, 0xff, 0x02, 0x00, 0x00, 0x00]).is_ok());
    assert_eq!(c.value, 1);
    assert!(c.update(&[0x04, 0x03, 0x02, 0x01]).is_ok());
    assert_eq!(c.value, 0x0102_0305);
}

#[test]
fn checksum_rejects_partial_word() {
    let mut c = Checksum::new();
    assert!(c.update(&[1, 0, 0, 0]).is_ok());
    assert!(matches!(
        c.update(&[1, 2, 3, 4, 5, 6]),
        Err(Error::TruncatedData { offset: 4, len: 4 })
    ));
    assert_eq!(c.value, 1);
}

#[test]
fn done_stays_done() {
    let mut loader = Loader::new(image(&[], 7, 0)).unwrap();
    assert_eq!(loader.next_step().unwrap(), Step::Settle);
    assert_eq!(loader.next_step().unwrap(), Step::Trigger { address: 7 });
    assert_eq!(loader.next_step().unwrap(), Step::Done);
    assert_eq!(loader.next_step().unwrap(), Step::Done);
}
