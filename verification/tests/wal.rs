use literstream::wal::{
    ByteOrder, WAL_MAGIC_BE, WAL_VERSION, WalError, WalHeader, WalReader, wal_checksum,
};

#[test]
fn checksum_algorithm() {
    // Empty/zero input leaves the seed unchanged.
    assert_eq!(wal_checksum(ByteOrder::Little, 0, 0, &[0u8; 8]), (0, 0));

    // One 8-byte word {word0=1, word1=0}: s0 += (1 + 0); s1 += (0 + s0).
    let le = [1u8, 0, 0, 0, 0, 0, 0, 0];
    assert_eq!(wal_checksum(ByteOrder::Little, 0, 0, &le), (1, 1));

    // Big-endian reads the same word from the opposite byte order.
    let be = [0u8, 0, 0, 1, 0, 0, 0, 0];
    assert_eq!(wal_checksum(ByteOrder::Big, 0, 0, &be), (1, 1));

    // Additions wrap at u32.
    let max = [0xffu8, 0xff, 0xff, 0xff, 0, 0, 0, 0];
    assert_eq!(wal_checksum(ByteOrder::Little, 1, 0, &max), (0, 0));
}

const SALT1: u32 = 0x11223344;
const SALT2: u32 = 0x55667788;

/// Builds a WAL file: `(pgno, commit, fill)` per frame.
struct Wal {
    bytes: Vec<u8>,
    sum: (u32, u32),
}

impl Wal {
    fn new(page_size: u32) -> Wal {
        let mut b = Vec::new();
        for w in [WAL_MAGIC_BE, WAL_VERSION, page_size, 0, SALT1, SALT2] {
            b.extend_from_slice(&w.to_be_bytes());
        }
        let sum = wal_checksum(ByteOrder::Big, 0, 0, &b);
        b.extend_from_slice(&sum.0.to_be_bytes());
        b.extend_from_slice(&sum.1.to_be_bytes());
        Wal { bytes: b, sum }
    }

    fn frame(&mut self, page_size: u32, pgno: u32, commit: u32, fill: u8) {
        let mut head = Vec::new();
        head.extend_from_slice(&pgno.to_be_bytes());
        head.extend_from_slice(&commit.to_be_bytes());
        let data = vec![fill; page_size as usize];
        let s = wal_checksum(ByteOrder::Big, self.sum.0, self.sum.1, &head);
        self.sum = wal_checksum(ByteOrder::Big, s.0, s.1, &data);
        head.extend_from_slice(&SALT1.to_be_bytes());
        head.extend_from_slice(&SALT2.to_be_bytes());
        head.extend_from_slice(&self.sum.0.to_be_bytes());
        head.extend_from_slice(&self.sum.1.to_be_bytes());
        self.bytes.extend_from_slice(&head);
        self.bytes.extend_from_slice(&data);
    }
}

#[test]
fn wal_header_parses_and_refuses() {
    let w = Wal::new(512);
    let h = WalHeader::parse(&w.bytes).unwrap();
    assert_eq!((h.page_size, h.salt1, h.salt2), (512, SALT1, SALT2));
    assert_eq!(
        WalHeader::parse(&w.bytes[..31]),
        Err(WalError::Incomplete { need: 32, got: 31 })
    );
    let mut bad = w.bytes.clone();
    bad[0] = 0;
    assert_eq!(WalHeader::parse(&bad), Err(WalError::InvalidMagic(0x007f_0683)));
    let mut bad = w.bytes.clone();
    bad[20] ^= 1; // a salt is covered by the header checksum
    assert_eq!(WalHeader::parse(&bad), Err(WalError::HeaderChecksumMismatch));
    let mut bad = w.bytes.clone();
    bad[7] ^= 1; // the version
    assert_eq!(WalHeader::parse(&bad), Err(WalError::UnsupportedVersion(3_007_001)));
}

#[test]
fn page_map_holds_the_newest_committed_pages() {
    let mut w = Wal::new(512);
    w.frame(512, 1, 0, 1);
    w.frame(512, 2, 2, 2); // commit: two pages
    w.frame(512, 1, 2, 3); // commit: page 1 again
    w.frame(512, 2, 0, 4); // not committed
    let mut r = WalReader::new(&w.bytes).unwrap();
    assert_eq!(r.page_size(), 512);
    let m = r.page_map();
    assert_eq!(m.commit, 2);
    assert_eq!(m.pages.len(), 2);
    assert_eq!(r.page_data_at(m.pages[&1]), &[3u8; 512][..]);
    assert_eq!(r.page_data_at(m.pages[&2]), &[2u8; 512][..]);
    assert_eq!(m.pages[&1], 32 + 2 * 536);
    assert_eq!(m.end_offset, 32 + 3 * 536);
}

#[test]
fn bytes_after_the_last_good_frame_change_nothing() {
    let mut w = Wal::new(512);
    w.frame(512, 1, 1, 7);
    let mut longer = w.bytes.clone();
    longer.extend_from_slice(&[0xaa; 600]); // a stale frame of another generation
    let a = WalReader::new(&w.bytes).unwrap().page_map();
    let b = WalReader::new(&longer).unwrap().page_map();
    assert_eq!(a.pages, b.pages);
    assert_eq!((a.commit, a.end_offset), (b.commit, b.end_offset));
}

#[test]
fn reading_resumes_at_a_frame() {
    let mut w = Wal::new(512);
    w.frame(512, 1, 1, 1);
    w.frame(512, 2, 2, 2);
    let mut r = WalReader::new_at_offset(&w.bytes, 32 + 536).unwrap();
    let f = r.read_frame().unwrap();
    assert_eq!((f.pgno, f.commit, f.offset), (2, 2, 32 + 536));
    assert!(f.is_commit());
    assert!(r.read_frame().is_none());
    assert!(matches!(
        WalReader::new_at_offset(&w.bytes, 33),
        Err(WalError::UnalignedOffset(33))
    ));
}

#[test]
fn wal_error_messages_read_well() {
    assert_eq!(
        WalError::Incomplete { need: 32, got: 4 }.message(),
        "incomplete wal header: need 32, got 4"
    );
    assert_eq!(WalError::InvalidMagic(0x1f).message(), "invalid wal magic: 0x0000001f");
}

#[test]
fn the_tail_alone_reads_as_the_whole_wal_does() {
    let mut w = Wal::new(512);
    w.frame(512, 1, 1, 1);
    let seed = w.sum;
    w.frame(512, 2, 2, 2);
    w.frame(512, 1, 2, 3);
    let at = 32 + 536;
    let header = WalHeader::parse(&w.bytes).unwrap();

    let whole = WalReader::new_at_offset(&w.bytes, at).unwrap().page_map();
    let mut tail = WalReader::from_tail(header, &w.bytes[at as usize..], at, seed).unwrap();
    let map = tail.page_map();
    assert_eq!((map.commit, map.end_offset), (2, 32 + 3 * 536));
    assert_eq!((whole.commit, whole.end_offset), (map.commit, map.end_offset));
    assert_eq!(whole.pages, map.pages);
    assert_eq!(tail.page_data_at(map.pages[&1]), &[3u8; 512][..]);

    // Another seed does not continue the checksum, so no frame is valid.
    let mut other = WalReader::from_tail(header, &w.bytes[at as usize..], at, (0, 0)).unwrap();
    assert!(other.read_frame().is_none());
    assert!(matches!(
        WalReader::from_tail(header, &[], 31, seed),
        Err(WalError::UnalignedOffset(31))
    ));
}

#[test]
fn laying_the_page_map_over_the_database_replays_the_log() {
    let mut w = Wal::new(512);
    let frames = [(1, 0, 10), (3, 3, 30), (2, 0, 20), (1, 2, 11), (2, 0, 99)];
    for (pgno, commit, fill) in frames {
        w.frame(512, pgno, commit, fill);
    }
    // Copying the committed frames in their order, as a checkpoint does.
    let base = vec![vec![1u8; 512], vec![2; 512], vec![3; 512]];
    let mut replayed = base.clone();
    for (pgno, commit, fill) in &frames[..4] {
        replayed[*pgno as usize - 1] = vec![*fill; 512];
        if *commit > 0 {
            replayed.resize(*commit as usize, vec![0; 512]);
        }
    }

    let mut r = WalReader::new(&w.bytes).unwrap();
    let map = r.page_map();
    assert_eq!(map.commit, 2);
    let mut laid = base;
    laid.resize(map.commit as usize, vec![0; 512]);
    for (pgno, offset) in &map.pages {
        laid[*pgno as usize - 1] = r.page_data_at(*offset).to_vec();
    }
    assert_eq!(laid, replayed);
}
