use std::collections::BTreeMap;

use literstream::ltx::index::append_uvarint;
use literstream::ltx::{
    BlockFault, CHECKSUM_FLAG, Checksum, DecodedFile, Decoder, Encoder, HEADER_FLAG_NO_CHECKSUM, HEADER_SIZE,
    Hasher, Header, LtxError, Merge, PageHeader, PageIndexElem, Trailer, checksum_page, compact,
    compact_header,
    decode_page_frame, decode_page_index, lock_pgno, read_file, read_snapshot, write_snapshot,
};
use literstream::sync::SyncError;
use literstream::sync::image::apply_file;

#[test]
fn crc64_iso_check_vector() {
    let mut h = Hasher::new();
    h.update(b"123456789");
    assert_eq!(h.sum64(), 0xb909_56c7_75a4_1001);
}

#[test]
fn crc64_streaming_matches_single_shot() {
    let data = b"the quick brown fox jumps over the lazy dog";
    let mut one = Hasher::new();
    one.update(data);

    let mut split = Hasher::new();
    split.update(&data[..10]);
    split.update(&data[10..]);

    assert_eq!(one.sum64(), split.sum64());
}

#[test]
fn checksum_flag_is_always_set() {
    let c = checksum_page(1, &[0u8; 4096]);
    assert_ne!(c.0 & CHECKSUM_FLAG, 0);
}

fn header(page_size: u32, commit: u32, min: u64, max: u64) -> Header {
    Header {
        flags: HEADER_FLAG_NO_CHECKSUM,
        page_size,
        commit,
        min_txid: min,
        max_txid: max,
        timestamp: 0,
        pre_apply_checksum: Checksum::zero(),
        wal_offset: 0,
        wal_size: 0,
        wal_salt1: 0,
        wal_salt2: 0,
        node_id: 0,
    }
}

/// Builds a small LTX file with `pages` as `(pgno, fill-byte)` at `page_size`.
fn ltx(page_size: u32, commit: u32, min: u64, max: u64, pages: &[(u32, u8)]) -> Vec<u8> {
    let mut enc = Encoder::new();
    enc.encode_header(header(page_size, commit, min, max)).unwrap();
    for &(pgno, b) in pages {
        enc.encode_page(pgno, &vec![b; page_size as usize]).unwrap();
    }
    enc.finish().unwrap();
    enc.into_inner()
}

#[test]
fn merge_keeps_latest_and_drops_beyond_commit() {
    let ps = 4096u32;
    // Base snapshot: pages 1..3. Later incremental: rewrites page 1 and shrinks
    // the database to 2 pages (as a VACUUM would).
    let base = ltx(ps, 3, 1, 1, &[(1, b'a'), (2, b'a'), (3, b'a')]);
    let incr = ltx(ps, 2, 2, 2, &[(1, b'b')]);

    let merged = compact(&[&base, &incr]).unwrap();
    let f = read_file(&merged).unwrap();

    assert_eq!((f.header.min_txid, f.header.max_txid, f.header.commit), (1, 2, 2));
    let pages: BTreeMap<u32, u8> = f.pages.iter().map(|(p, d)| (*p, d[0])).collect();
    assert_eq!(pages.get(&1), Some(&b'b'), "later input wins page 1");
    assert_eq!(pages.get(&2), Some(&b'a'), "page 2 carried from the base");
    assert_eq!(pages.get(&3), None, "page 3 dropped beyond the new commit");
    assert_eq!(pages.len(), 2);
}

#[test]
fn compact_rejects_non_contiguous_inputs() {
    let ps = 4096u32;
    let a = ltx(ps, 1, 1, 1, &[(1, b'a')]);
    let c = ltx(ps, 1, 3, 3, &[(1, b'c')]); // gap: missing txid 2
    assert!(compact(&[&a, &c]).is_err());
}

/// Reconstructs the database image from a decoded snapshot.
fn db_image(file: &DecodedFile) -> Vec<u8> {
    let ps = file.header.page_size as usize;
    let mut img = vec![0u8; file.header.commit as usize * ps];
    for (pgno, data) in &file.pages {
        let start = (*pgno as usize - 1) * ps;
        img[start..start + ps].copy_from_slice(data);
    }
    img
}

#[test]
fn synthetic_pages_round_trip() {
    // Two 512-byte pages with distinct, compressible content.
    let page_size = 512usize;
    let mut db = vec![0u8; page_size * 2];
    for (i, b) in db.iter_mut().enumerate() {
        *b = ((i / page_size) as u8).wrapping_mul(17); // page 1 -> 0x00, page 2 -> 0x11
    }

    let (out, _) = write_snapshot(page_size as u32, &db, 1, 0).expect("encode");

    let file = read_file(&out).expect("decode");
    assert_eq!(file.header.commit, 2);
    assert_eq!(db_image(&file), db);
}

#[test]
fn checksum_values_are_exact() {
    // The CRC of nothing is zero, and the flag bit is set on top.
    let h = Hasher::new();
    assert_eq!(h.sum64(), 0);
    assert_eq!(h.checksum(), Checksum(CHECKSUM_FLAG));
    assert!(Checksum::zero().is_zero());
    assert!(!h.checksum().is_zero());
    assert_eq!(Checksum(0x1f).to_hex(), "000000000000001f");

    // A page checksum covers the big-endian page number, then the data.
    let mut by_hand = Hasher::new();
    by_hand.update(&[0, 0, 0, 7]);
    by_hand.update(b"page");
    assert_eq!(checksum_page(7, b"page"), by_hand.checksum());
}

#[test]
fn rolling_checksum_commutes_and_cancels() {
    let a = checksum_page(1, b"one");
    let b = checksum_page(2, b"two");
    let start = Checksum(CHECKSUM_FLAG);
    assert_eq!(start.fold(a).fold(b), start.fold(b).fold(a));
    assert_eq!(start.fold(a).fold(a), start);
}

#[test]
fn header_round_trips_and_rejects() {
    let h = header(4096, 9, 3, 5);
    let b = h.encode();
    assert_eq!(b.len(), HEADER_SIZE);
    assert_eq!(&b[..4], b"LTX1");
    assert_eq!(Header::decode(&b), Ok(h));
    assert!(!h.is_snapshot());
    assert!(h.no_checksum());
    assert_eq!(h.lock_pgno(), 262145);
    assert_eq!(lock_pgno(65536), 16385);

    assert_eq!(
        Header::decode(&b[..99]),
        Err(LtxError::ShortBuffer { need: 100, got: 99 })
    );
    let mut bad = b.clone();
    bad[0] = b'X';
    assert_eq!(Header::decode(&bad), Err(LtxError::InvalidMagic(*b"XTX1")));
    let mut bad = b.clone();
    bad[11] = 1; // page size 4097
    assert_eq!(Header::decode(&bad), Err(LtxError::InvalidPageSize(4097)));

    assert_eq!(
        header(4096, 1, 0, 1).validate(),
        Err(LtxError::InvalidTxidRange { min: 0, max: 1 })
    );
    assert_eq!(
        header(4096, 1, 3, 2).validate(),
        Err(LtxError::InvalidTxidRange { min: 3, max: 2 })
    );
    let mut snap = header(4096, 1, 1, 1);
    snap.pre_apply_checksum = Checksum(CHECKSUM_FLAG);
    assert_eq!(snap.validate(), Err(LtxError::SnapshotPreApplyChecksum));
}

#[test]
fn page_header_and_trailer_round_trip() {
    let ph = PageHeader { pgno: 0x01020304, flags: 1 };
    assert_eq!(ph.encode(), vec![1, 2, 3, 4, 0, 1]);
    assert_eq!(PageHeader::decode(&ph.encode()), Ok(ph));
    assert!(ph.is_block_compressed());
    assert!(!ph.is_zero());
    assert!(PageHeader::decode(&[0; 6]).unwrap().is_zero());
    assert_eq!(
        PageHeader::decode(&[0; 5]),
        Err(LtxError::ShortBuffer { need: 6, got: 5 })
    );

    let t = Trailer { post_apply_checksum: Checksum(7), file_checksum: Checksum(9) };
    assert_eq!(t.encode().len(), 16);
    assert_eq!(Trailer::decode(&t.encode()), Ok(t));
    assert_eq!(
        Trailer::decode(&[0; 15]),
        Err(LtxError::ShortBuffer { need: 16, got: 15 })
    );
}

#[test]
fn page_index_reads_back_what_is_written() {
    // Two entries: (1, 100, 20) and (300, 120, 5), then the terminator.
    let mut b = Vec::new();
    append_uvarint(&mut b, 1);
    append_uvarint(&mut b, 100);
    append_uvarint(&mut b, 20);
    append_uvarint(&mut b, 300);
    append_uvarint(&mut b, 120);
    append_uvarint(&mut b, 5);
    append_uvarint(&mut b, 0);
    assert_eq!(b, vec![1, 100, 20, 0xac, 0x02, 120, 5, 0]);
    assert_eq!(
        decode_page_index(&b).unwrap(),
        vec![
            PageIndexElem { pgno: 1, offset: 100, size: 20 },
            PageIndexElem { pgno: 300, offset: 120, size: 5 },
        ]
    );
    // Eleven continuation bytes do not fit in 64 bits.
    assert_eq!(decode_page_index(&[0xff; 11]), Err(LtxError::VarintOverflow));
}

#[test]
fn a_tenth_varint_byte_holds_one_bit() {
    let mut widest = vec![0xff; 9];
    widest.push(1);
    let mut b = vec![1];
    b.extend_from_slice(&widest);
    b.extend_from_slice(&[20, 0]);
    assert_eq!(
        decode_page_index(&b).unwrap(),
        vec![PageIndexElem { pgno: 1, offset: u64::MAX, size: 20 }]
    );
    let mut written = Vec::new();
    append_uvarint(&mut written, u64::MAX);
    assert_eq!(written, widest);
    for last in [2, 3, 0x7f] {
        b[10] = last;
        assert_eq!(decode_page_index(&b), Err(LtxError::VarintOverflow));
    }
    // Ten continuation bytes and nothing after them: the number is cut off.
    assert_eq!(
        decode_page_index(&[0xff; 10]),
        Err(LtxError::ShortBuffer { need: 11, got: 10 })
    );
}

#[test]
fn encoder_refuses_pages_out_of_place() {
    let mut enc = Encoder::new();
    assert_eq!(enc.bytes_written(), 0);
    enc.encode_header(header(512, 3, 2, 2)).unwrap();
    assert_eq!(enc.bytes_written(), 100);
    let page = [7u8; 512];
    assert_eq!(enc.encode_page(0, &page), Err(LtxError::ZeroPageNumber));
    assert_eq!(
        enc.encode_page(4, &page),
        Err(LtxError::PageBeyondCommit { pgno: 4, commit: 3 })
    );
    assert_eq!(
        enc.encode_page(1, &page[..511]),
        Err(LtxError::WrongPageLength { expected: 512, got: 511 })
    );
    enc.encode_page(2, &page).unwrap();
    assert_eq!(
        enc.encode_page(2, &page),
        Err(LtxError::PageOutOfOrder { prev: 2, pgno: 2 })
    );

    // A snapshot holds every page from 1 on.
    let mut enc = Encoder::new();
    enc.encode_header(header(512, 3, 1, 1)).unwrap();
    assert_eq!(
        enc.encode_page(2, &page),
        Err(LtxError::PageOutOfOrder { prev: 0, pgno: 2 })
    );

    // The lock page is never stored.
    let mut enc = Encoder::new();
    enc.encode_header(header(65536, 20000, 2, 2)).unwrap();
    assert_eq!(
        enc.encode_page(16385, &vec![0u8; 65536]),
        Err(LtxError::LockPageEncoded(16385))
    );
}

#[test]
fn pages_are_compressed_in_the_file() {
    let file = ltx(4096, 1, 1, 1, &[(1, b'a')]);
    // One page of a single byte value takes far less than a page.
    assert!(file.len() < 300, "{} bytes", file.len());
    // The frame starts right after the page header, with the LZ4 frame magic.
    assert_eq!(&file[106..110], &[0x04, 0x22, 0x4d, 0x18]);
    let f = read_file(&file).unwrap();
    assert_eq!(f.pages, vec![(1, vec![b'a'; 4096])]);
}

#[test]
fn corrupt_files_are_refused() {
    let file = ltx(512, 2, 1, 1, &[(1, 1), (2, 2)]);
    let n = file.len();

    let mut bad = file.clone();
    bad[40] ^= 1; // the timestamp is covered by the file checksum
    assert!(matches!(
        read_file(&bad),
        Err(LtxError::FileChecksumMismatch { .. })
    ));

    assert_eq!(
        read_file(&file[..110]).err(),
        Some(LtxError::ShortBuffer { need: 124, got: 110 })
    );

    // An index length beyond the file.
    let mut bad = file.clone();
    bad[n - 24..n - 16].copy_from_slice(&1_000_000u64.to_be_bytes());
    assert_eq!(
        read_file(&bad).err(),
        Some(LtxError::ShortBuffer { need: 1_000_024, got: n })
    );

    // A broken LZ4 frame.
    let mut bad = file.clone();
    bad[106] ^= 0xff;
    assert_eq!(read_file(&bad).err(), Some(LtxError::Frame));
}

/// A file whose pages are LZ4 blocks, as the streaming decoder reads them.
fn block_file(page_size: u32, commit: u32, flags: u32, pages: &[(u32, Vec<u8>)]) -> Vec<u8> {
    let listed: Vec<u32> = pages.iter().map(|p| p.0).collect();
    block_file_listing(page_size, commit, flags, pages, &listed)
}

/// The same, with other page numbers in the index.
fn block_file_listing(
    page_size: u32,
    commit: u32,
    flags: u32,
    pages: &[(u32, Vec<u8>)],
    listed: &[u32],
) -> Vec<u8> {
    let mut h = header(page_size, commit, 1, 1);
    h.flags = flags;
    let mut out = h.encode();
    let mut hash = Hasher::new();
    hash.update(&out);
    let mut index = Vec::new();
    let mut rolling = Checksum(CHECKSUM_FLAG);
    for ((pgno, data), listed) in pages.iter().zip(listed) {
        let at = out.len() as u64;
        let block = lz4_flex::block::compress(data);
        let mut head = PageHeader { pgno: *pgno, flags: 1 }.encode();
        head.extend_from_slice(&(block.len() as u32).to_be_bytes());
        hash.update(&head);
        hash.update(data);
        out.extend_from_slice(&head);
        out.extend_from_slice(&block);
        append_uvarint(&mut index, *listed as u64);
        append_uvarint(&mut index, at);
        append_uvarint(&mut index, out.len() as u64 - at);
        rolling = rolling.fold(checksum_page(*pgno, data));
    }
    append_uvarint(&mut index, 0);
    let n = index.len() as u64;
    index.extend_from_slice(&n.to_be_bytes());
    let post = if flags & HEADER_FLAG_NO_CHECKSUM != 0 { Checksum::zero() } else { rolling };
    index.extend_from_slice(&post.0.to_be_bytes());
    hash.update(&[0; 6]);
    hash.update(&index);
    out.extend_from_slice(&[0; 6]);
    out.extend_from_slice(&index);
    out.extend_from_slice(&hash.checksum().0.to_be_bytes());
    out
}

#[test]
fn block_pages_stream_in_order() {
    let pages = vec![(1u32, vec![5u8; 512]), (2u32, (0..512).map(|i| i as u8).collect())];
    let file = block_file(512, 2, 0, &pages);

    let mut dec = Decoder::new(&file);
    let h = dec.decode_header().unwrap();
    assert_eq!((h.page_size, h.commit), (512, 2));
    let mut page = vec![0u8; 512];
    for (pgno, data) in &pages {
        assert_eq!(dec.decode_page(&mut page).unwrap().map(|p| p.pgno), Some(*pgno));
        assert_eq!(&page, data);
    }
    assert_eq!(dec.decode_page(&mut page).unwrap(), None);
    let trailer = dec.finish().unwrap();
    assert_eq!(dec.page_index().len(), 2);
    assert_eq!(dec.trailer(), Some(&trailer));

    let snap = read_snapshot(&file).unwrap();
    assert_eq!(snap.db, [pages[0].1.clone(), pages[1].1.clone()].concat());
    assert_eq!(snap.db.len(), 2 * 512);

    // The whole-file reader understands both page formats.
    let f = read_file(&file).unwrap();
    assert_eq!(f.pages, pages);
}

#[test]
fn streaming_decoder_names_what_is_wrong() {
    // Frame pages are not read by the streaming decoder.
    let frames = ltx(512, 1, 1, 1, &[(1, 1)]);
    let mut dec = Decoder::new(&frames);
    dec.decode_header().unwrap();
    let mut page = vec![7u8; 512];
    assert_eq!(dec.decode_page(&mut page), Err(LtxError::FrameFormatUnsupported));
    assert_eq!(page, vec![7u8; 512]);
    assert!(dec.trailer().is_none());

    // A wrong rolling checksum.
    let pages = vec![(1u32, vec![5u8; 512])];
    let good = block_file(512, 1, 0, &pages);
    let n = good.len();
    let mut bad = good.clone();
    bad[n - 9] ^= 1;
    assert!(matches!(
        read_snapshot(&bad),
        Err(LtxError::PostApplyChecksumMismatch { .. })
            | Err(LtxError::FileChecksumMismatch { .. })
    ));

    // A page that is missing.
    let gap = block_file(512, 2, HEADER_FLAG_NO_CHECKSUM, &pages);
    assert_eq!(
        read_snapshot(&gap).err(),
        Some(LtxError::UnexpectedPage { expected: 2, got: 0 })
    );

    // An incremental is no snapshot.
    let inc = ltx(512, 1, 2, 2, &[(1, 1)]);
    assert_eq!(read_snapshot(&inc).err(), Some(LtxError::NotASnapshot));
}

#[test]
fn a_header_is_read_whether_or_not_it_is_valid() {
    let file = block_file(512, 1, 0, &[(1, vec![5u8; 512])]);
    let mut b = vec![0u8; 100];
    b.extend_from_slice(&file);
    let mut dec = Decoder::new(&b);
    assert_eq!(dec.decode_header(), Err(Header::decode(&b[..100]).unwrap_err()));
    assert!(dec.header().is_none());
    // The next call reads the next 100 bytes.
    let h = dec.decode_header().unwrap();
    assert_eq!(h, Header::decode(&file).unwrap());
    assert_eq!(dec.header(), Some(&h));
    let mut page = vec![0u8; 512];
    assert_eq!(dec.decode_page(&mut page).unwrap().map(|p| p.pgno), Some(1));
    assert_eq!(dec.decode_page(&mut page), Ok(None));
    // The bytes of the first attempt are in the file checksum.
    assert!(matches!(dec.finish(), Err(LtxError::FileChecksumMismatch { .. })));

    let mut dec = Decoder::new(&file[..99]);
    assert_eq!(dec.decode_header(), Err(LtxError::UnexpectedEof));
    assert!(dec.header().is_none());
}

#[test]
fn the_decoder_goes_on_behind_what_it_read() {
    let head = header(512, 9, 2, 2).encode();
    let broken: [(&[u8], LtxError); 3] = [
        (&[0, 0, 0, 0, 0, 1], LtxError::ZeroPageNumber),
        (&[0, 0, 0, 5, 0, 0], LtxError::FrameFormatUnsupported),
        (
            &[0, 0, 0, 5, 0, 1, 0, 0, 0, 4, 0xff, 0xff, 0xff, 0xff],
            LtxError::Lz4(BlockFault::ExpectedAnotherByte),
        ),
    ];
    for (page, e) in broken {
        let mut b = head.clone();
        b.extend_from_slice(page);
        b.extend_from_slice(&[0; 6]);
        let mut dec = Decoder::new(&b);
        dec.decode_header().unwrap();
        let mut buf = vec![0u8; 512];
        assert_eq!(dec.decode_page(&mut buf), Err(e));
        assert_eq!(dec.decode_page(&mut buf), Ok(None));
    }

    // A page that is cut off.
    let mut b = head.clone();
    b.extend_from_slice(&[0, 0, 0, 5, 0, 1, 0, 0, 0, 9, 1, 2, 3]);
    let mut dec = Decoder::new(&b);
    dec.decode_header().unwrap();
    let mut buf = vec![7u8; 512];
    assert_eq!(dec.decode_page(&mut buf), Err(LtxError::UnexpectedEof));
    assert_eq!(buf, vec![7u8; 512]);

    // Finishing reads everything, so that a second attempt finds nothing.
    let mut file = block_file(512, 1, 0, &[(1, vec![5u8; 512])]);
    let n = file.len();
    file[n - 1] ^= 1;
    let mut dec = Decoder::new(&file);
    dec.decode_header().unwrap();
    dec.decode_page(&mut buf).unwrap();
    assert_eq!(dec.decode_page(&mut buf), Ok(None));
    assert!(matches!(dec.finish(), Err(LtxError::FileChecksumMismatch { .. })));
    assert_eq!(dec.page_index().len(), 1);
    assert!(dec.trailer().is_none());
    assert_eq!(dec.finish(), Err(LtxError::ShortBuffer { need: 16, got: 0 }));
}

#[test]
fn broken_block_is_an_lz4_error() {
    let mut frame = PageHeader { pgno: 1, flags: 1 }.encode();
    frame.extend_from_slice(&4u32.to_be_bytes());
    frame.extend_from_slice(&[0xff, 0xff, 0xff, 0xff]);
    assert_eq!(
        decode_page_frame(&frame, 512),
        Err(LtxError::Lz4(BlockFault::ExpectedAnotherByte))
    );
    // A match that points before the output, one at no distance, a literal past the
    // end, and more output than a page.
    let cases = [
        (vec![0x10, 7, 2, 0, 0], BlockFault::OffsetOutOfBounds),
        (vec![0x10, 7, 0, 0, 0], BlockFault::OffsetZero),
        (vec![0x50, 7], BlockFault::LiteralOutOfBounds),
    ];
    for (block, fault) in cases {
        let mut frame = PageHeader { pgno: 1, flags: 1 }.encode();
        frame.extend_from_slice(&(block.len() as u32).to_be_bytes());
        frame.extend_from_slice(&block);
        assert_eq!(decode_page_frame(&frame, 512), Err(LtxError::Lz4(fault)));
    }
    let block = lz4_flex::block::compress(&[1u8; 600]);
    let mut long = PageHeader { pgno: 1, flags: 1 }.encode();
    long.extend_from_slice(&(block.len() as u32).to_be_bytes());
    long.extend_from_slice(&block);
    assert!(matches!(
        decode_page_frame(&long, 512),
        Err(LtxError::Lz4(BlockFault::OutputTooSmall { .. }))
    ));
    assert_eq!(
        decode_page_frame(&frame[..13], 512),
        Err(LtxError::ShortBuffer { need: 14, got: 13 })
    );
    // A page that is shorter than a page.
    let block = lz4_flex::block::compress(&[1u8; 100]);
    let mut frame = PageHeader { pgno: 1, flags: 1 }.encode();
    frame.extend_from_slice(&(block.len() as u32).to_be_bytes());
    frame.extend_from_slice(&block);
    assert_eq!(
        decode_page_frame(&frame, 512),
        Err(LtxError::WrongPageLength { expected: 512, got: 100 })
    );
}

#[test]
fn compaction_checks_its_inputs() {
    assert_eq!(
        compact(&[]).err(),
        Some(LtxError::ShortBuffer { need: 1, got: 0 })
    );
    let a = ltx(512, 1, 1, 4, &[(1, 1)]);
    let b = ltx(1024, 1, 5, 5, &[(1, 1)]);
    assert_eq!(compact(&[&a, &b]).err(), Some(LtxError::InvalidPageSize(1024)));
    let c = ltx(512, 1, 7, 7, &[(1, 1)]);
    assert_eq!(
        compact(&[&a, &c]).err(),
        Some(LtxError::UnexpectedPage { expected: 4, got: 7 })
    );
    // Overlapping ranges are contiguous.
    let d = ltx(512, 1, 3, 6, &[(1, 9)]);
    let f = read_file(&compact(&[&a, &d]).unwrap()).unwrap();
    assert_eq!((f.header.min_txid, f.header.max_txid), (1, 6));
    assert_eq!(f.pages, vec![(1, vec![9; 512])]);
}

#[test]
fn error_messages_read_well() {
    assert_eq!(
        LtxError::ShortBuffer { need: 100, got: 7 }.message(),
        "short buffer: need 100, got 7"
    );
    assert_eq!(
        LtxError::FileChecksumMismatch { expected: Checksum(1), actual: Checksum(0xab) }.message(),
        "file checksum mismatch: expected 0000000000000001, got 00000000000000ab"
    );
    assert_eq!(
        LtxError::Lz4(BlockFault::OutputTooSmall { expected: 600, actual: 512 }).message(),
        "lz4 decompress: provided output is too small for the decompressed data, \
         actual 512, expected 600"
    );
    assert_eq!(
        LtxError::Lz4(BlockFault::OffsetZero).message(),
        "lz4 decompress: 0 is not a valid match offset"
    );
    assert_eq!(
        LtxError::BlockTooLong { len: 16_777_217 }.message(),
        "lz4 block of 16777217 bytes is too long"
    );
    assert_eq!(
        LtxError::PageBeyondCommit { pgno: 12, commit: 3 }.message(),
        "page 12 out-of-bounds for commit size 3"
    );
}

#[test]
fn pages_outside_the_database_are_not_applied() {
    let pages = vec![(2u32, vec![5u8; 512])];
    let beyond = block_file(512, 1, HEADER_FLAG_NO_CHECKSUM, &pages);
    assert_eq!(
        apply_file(Vec::new(), &beyond),
        Err(SyncError::Ltx(LtxError::PageBeyondCommit { pgno: 2, commit: 1 }))
    );
    let pages = vec![(0u32, vec![5u8; 512])];
    let zero = block_file_listing(512, 1, HEADER_FLAG_NO_CHECKSUM, &pages, &[1]);
    assert_eq!(
        apply_file(Vec::new(), &zero),
        Err(SyncError::Ltx(LtxError::ZeroPageNumber))
    );
}

#[test]
fn a_merge_can_be_taken_out_as_it_grows() {
    let a = ltx(512, 3, 1, 1, &[(1, 1), (2, 1), (3, 1)]);
    let b = ltx(512, 2, 2, 2, &[(1, 2)]);
    let inputs: Vec<&[u8]> = vec![&a, &b];
    let mut m = Merge::begin(&inputs, compact_header(&inputs).unwrap()).unwrap();
    let mut out = Vec::new();
    while m.step().unwrap() {
        out.extend_from_slice(&m.take_output());
    }
    out.extend_from_slice(&m.finish());
    assert_eq!(out, compact(&inputs).unwrap());
    assert_eq!(compact_header(&[]).err(), Some(LtxError::ShortBuffer { need: 1, got: 0 }));
}

#[test]
fn an_encoder_hands_out_its_bytes_once() {
    let mut enc = Encoder::new();
    enc.encode_header(header(512, 2, 2, 2)).unwrap();
    let mut out = enc.take_output();
    assert_eq!(out.len(), 100);
    enc.encode_page(1, &[1u8; 512]).unwrap();
    out.extend_from_slice(&enc.take_output());
    assert!(enc.take_output().is_empty());
    assert_eq!(enc.bytes_written(), out.len() as u64);
    enc.encode_page(2, &[2u8; 512]).unwrap();
    enc.finish().unwrap();
    out.extend_from_slice(&enc.into_inner());
    assert_eq!(out, ltx(512, 2, 2, 2, &[(1, 1), (2, 2)]));
}
