use std::io::Write;

use simple_reader::zip_fast::{
    decompress, find_entry, find_eocd, parse_archive, parse_cd, parse_eocd, read_directory,
    read_entry_at, read_zip64_extra, EntryMeta, ErrorKind, ZipError, ZipIndex,
};

struct Item {
    name: Vec<u8>,
    flags: u16,
    method: u16,
    stored: Vec<u8>,
    uncompressed: u64,
    zip64: bool,
}

fn item(name: &str, data: &[u8]) -> Item {
    Item {
        name: name.as_bytes().to_vec(),
        flags: 0x0800,
        method: 0,
        stored: data.to_vec(),
        uncompressed: data.len() as u64,
        zip64: false,
    }
}

fn deflate(data: &[u8]) -> Vec<u8> {
    let mut encoder =
        flate2::write::DeflateEncoder::new(Vec::new(), flate2::Compression::default());
    encoder.write_all(data).unwrap();
    encoder.finish().unwrap()
}

fn deflated_item(name: &str, data: &[u8]) -> Item {
    Item {
        name: name.as_bytes().to_vec(),
        flags: 0x0800,
        method: 8,
        stored: deflate(data),
        uncompressed: data.len() as u64,
        zip64: false,
    }
}

fn put16(out: &mut Vec<u8>, v: u16) {
    out.extend_from_slice(&v.to_le_bytes());
}

fn put32(out: &mut Vec<u8>, v: u32) {
    out.extend_from_slice(&v.to_le_bytes());
}

fn put64(out: &mut Vec<u8>, v: u64) {
    out.extend_from_slice(&v.to_le_bytes());
}

/// The local part of the archive and the central directory records.
fn lay_out(items: &[Item]) -> (Vec<u8>, Vec<u8>) {
    let mut body = Vec::new();
    let mut directory = Vec::new();
    for it in items {
        let offset = body.len() as u64;
        put32(&mut body, 0x04034b50);
        put16(&mut body, 20);
        put16(&mut body, it.flags);
        put16(&mut body, it.method);
        put32(&mut body, 0);
        put32(&mut body, 0);
        put32(&mut body, it.stored.len() as u32);
        put32(&mut body, it.uncompressed as u32);
        put16(&mut body, it.name.len() as u16);
        // The local header carries padding that the directory does not.
        put16(&mut body, 3);
        body.extend_from_slice(&it.name);
        body.extend_from_slice(&[0xAA, 0xBB, 0xCC]);
        body.extend_from_slice(&it.stored);

        let mut extra = Vec::new();
        if it.zip64 {
            // An unrelated block first, then the zip64 block.
            put16(&mut extra, 0x5455);
            put16(&mut extra, 2);
            extra.extend_from_slice(&[1, 2]);
            put16(&mut extra, 0x0001);
            put16(&mut extra, 24);
            put64(&mut extra, it.uncompressed);
            put64(&mut extra, it.stored.len() as u64);
            put64(&mut extra, offset);
        }
        put32(&mut directory, 0x02014b50);
        put16(&mut directory, 20);
        put16(&mut directory, 20);
        put16(&mut directory, it.flags);
        put16(&mut directory, it.method);
        put32(&mut directory, 0);
        put32(&mut directory, 0);
        if it.zip64 {
            put32(&mut directory, 0xFFFF_FFFF);
            put32(&mut directory, 0xFFFF_FFFF);
        } else {
            put32(&mut directory, it.stored.len() as u32);
            put32(&mut directory, it.uncompressed as u32);
        }
        put16(&mut directory, it.name.len() as u16);
        put16(&mut directory, extra.len() as u16);
        put16(&mut directory, 2);
        put16(&mut directory, 0);
        put16(&mut directory, 0);
        put32(&mut directory, 0);
        if it.zip64 {
            put32(&mut directory, 0xFFFF_FFFF);
        } else {
            put32(&mut directory, offset as u32);
        }
        directory.extend_from_slice(&it.name);
        directory.extend_from_slice(&extra);
        directory.extend_from_slice(b"ok");
    }
    (body, directory)
}

fn end_record(out: &mut Vec<u8>, count: u16, dir_len: u32, dir_at: u32, comment: &[u8]) {
    put32(out, 0x06054b50);
    put16(out, 0);
    put16(out, 0);
    put16(out, count);
    put16(out, count);
    put32(out, dir_len);
    put32(out, dir_at);
    put16(out, comment.len() as u16);
    out.extend_from_slice(comment);
}

fn build(items: &[Item]) -> Vec<u8> {
    let (mut out, directory) = lay_out(items);
    let at = out.len() as u32;
    out.extend_from_slice(&directory);
    end_record(&mut out, items.len() as u16, directory.len() as u32, at, b"");
    out
}

/// An archive whose end record holds sentinels and whose true values stand
/// in a zip64 end record.
fn build_zip64(items: &[Item]) -> Vec<u8> {
    let (mut out, directory) = lay_out(items);
    let at = out.len() as u64;
    out.extend_from_slice(&directory);
    let record_at = out.len() as u64;
    put32(&mut out, 0x06064b50);
    put64(&mut out, 44);
    put16(&mut out, 45);
    put16(&mut out, 45);
    put32(&mut out, 0);
    put32(&mut out, 0);
    put64(&mut out, items.len() as u64);
    put64(&mut out, items.len() as u64);
    put64(&mut out, directory.len() as u64);
    put64(&mut out, at);
    put32(&mut out, 0x07064b50);
    put32(&mut out, 0);
    put64(&mut out, record_at);
    put32(&mut out, 1);
    end_record(&mut out, 0xFFFF, 0xFFFF_FFFF, 0xFFFF_FFFF, b"");
    out
}

fn map_of(bytes: &[u8]) -> memmap2::Mmap {
    let mut map = memmap2::MmapMut::map_anon(bytes.len()).unwrap();
    map.copy_from_slice(bytes);
    map.make_read_only().unwrap()
}

fn names(entries: &[EntryMeta]) -> Vec<String> {
    entries.iter().map(|e| e.name.clone()).collect()
}

#[test]
fn names_come_in_central_directory_order() {
    let zip = build(&[item("b.png", b"bb"), item("a.png", b"a")]);
    let entries = parse_archive(&zip).unwrap();
    assert_eq!(names(&entries), vec!["b.png".to_string(), "a.png".to_string()]);
    let index = ZipIndex::open(map_of(&zip)).unwrap();
    assert_eq!(index.entry_names(), vec!["b.png".to_string(), "a.png".to_string()]);
    // The list can be asked for again.
    assert_eq!(index.entry_names().len(), 2);
}

#[test]
fn entry_count_is_the_number_of_records_with_and_without_zip64() {
    let mut items = Vec::new();
    for i in 0..40 {
        let mut it = item(&format!("dir/page{}.png", i), &[i as u8; 5]);
        it.zip64 = i % 3 == 0;
        items.push(it);
    }
    let plain = parse_archive(&build(&items)).unwrap();
    let wide = parse_archive(&build_zip64(&items)).unwrap();
    assert_eq!(plain.len(), 40);
    assert_eq!(wide.len(), 40);
    for i in 0..40 {
        assert_eq!(plain[i].name, format!("dir/page{}.png", i));
        assert_eq!(wide[i].name, plain[i].name);
        assert_eq!(wide[i].local_header_offset, plain[i].local_header_offset);
    }
}

#[test]
fn stored_entry_has_the_recorded_size() {
    let data = b"not compressed at all";
    let zip = build(&[item("x.bin", data)]);
    let entries = parse_archive(&zip).unwrap();
    assert_eq!(entries[0].compression_method, 0);
    assert_eq!(entries[0].uncompressed_size, data.len() as u64);
    let bytes = decompress(&zip, &entries[0]).unwrap();
    assert_eq!(bytes.len() as u64, entries[0].uncompressed_size);
    assert_eq!(bytes, data.to_vec());
}

#[test]
fn deflated_entry_round_trips() {
    let data: Vec<u8> = (0..20_000u32).map(|i| (i % 7) as u8 + b'a').collect();
    let zip = build(&[item("first.txt", b"1"), deflated_item("big.txt", &data)]);
    let entries = parse_archive(&zip).unwrap();
    assert_eq!(entries[1].compression_method, 8);
    let bytes = read_entry_at(&zip, &entries, "big.txt").unwrap();
    assert_eq!(bytes, data);
    assert_eq!(deflate(&bytes).len() as u64, entries[1].compressed_size);
    assert!(entries[1].compressed_size < entries[1].uncompressed_size);
}

#[test]
fn zip64_extra_gives_sizes_and_offset() {
    let mut first = item("a.png", b"aaaa");
    first.zip64 = true;
    let mut second = deflated_item("b.png", &[9u8; 1000]);
    second.zip64 = true;
    let zip = build(&[first, second]);
    let entries = parse_archive(&zip).unwrap();
    assert_eq!(entries[0].compressed_size, 4);
    assert_eq!(entries[0].uncompressed_size, 4);
    assert_eq!(entries[0].local_header_offset, 0);
    assert_eq!(entries[1].uncompressed_size, 1000);
    assert_eq!(entries[1].local_header_offset, 30 + 5 + 3 + 4);
    assert_eq!(read_entry_at(&zip, &entries, "b.png").unwrap(), vec![9u8; 1000]);
}

#[test]
fn zip64_extra_is_read_in_fixed_order_for_sentinels_only() {
    let mut extra = Vec::new();
    put16(&mut extra, 0x0001);
    put16(&mut extra, 16);
    put64(&mut extra, 111);
    put64(&mut extra, 222);
    let (mut u, mut c, mut o) = (1u64, 0xFFFF_FFFFu64, 0xFFFF_FFFFu64);
    // Only the compressed size and the offset are sentinels: they take the
    // two values in that order.
    read_zip64_extra(&extra, 1, &mut u, 0xFFFF_FFFF, &mut c, 0xFFFF_FFFF, &mut o);
    assert_eq!((u, c, o), (1, 111, 222));
    let (mut u, mut c, mut o) = (0xFFFF_FFFFu64, 7u64, 0xFFFF_FFFFu64);
    read_zip64_extra(&extra, 0xFFFF_FFFF, &mut u, 7, &mut c, 0xFFFF_FFFF, &mut o);
    assert_eq!((u, c, o), (111, 7, 222));
}

#[test]
fn truncated_zip64_block_keeps_the_narrow_values() {
    // The block says 8 bytes and holds none.
    let extra = [0x01u8, 0x00, 0x08, 0x00];
    let (mut u, mut c, mut o) = (0xFFFF_FFFFu64, 5u64, 6u64);
    read_zip64_extra(&extra, 0xFFFF_FFFF, &mut u, 5, &mut c, 6, &mut o);
    assert_eq!((u, c, o), (0xFFFF_FFFF, 5, 6));
    // A block that declares less than a value holds gives nothing either.
    let short = [0x01u8, 0x00, 0x04, 0x00, 1, 2, 3, 4, 5, 6, 7, 8];
    let (mut u, mut c, mut o) = (0xFFFF_FFFFu64, 5u64, 6u64);
    read_zip64_extra(&short, 0xFFFF_FFFF, &mut u, 5, &mut c, 6, &mut o);
    assert_eq!((u, c, o), (0xFFFF_FFFF, 5, 6));
    // No zip64 block at all.
    let other = [0x55u8, 0x54, 0x01, 0x00, 9];
    read_zip64_extra(&other, 0xFFFF_FFFF, &mut u, 5, &mut c, 6, &mut o);
    assert_eq!((u, c, o), (0xFFFF_FFFF, 5, 6));
}

#[test]
fn zip64_end_record_wins_over_the_narrow_fields() {
    let zip = build_zip64(&[item("one", b"1"), item("two", b"22")]);
    let eocd = find_eocd(&zip).unwrap();
    assert_eq!(eocd, zip.len() - 22);
    let (count, offset) = parse_eocd(&zip, eocd);
    assert_eq!(count, 2);
    assert_eq!(offset, (30 + 3 + 3 + 1 + 30 + 3 + 3 + 2) as u64);
    assert_eq!(names(&parse_archive(&zip).unwrap()), vec!["one", "two"]);
}

#[test]
fn invalid_zip64_record_falls_back_to_the_narrow_fields() {
    // A known leniency: a locator that points at no zip64 record is passed
    // over and the 16-bit and 32-bit fields of the end record are used.
    let (mut out, directory) = lay_out(&[item("kept.png", b"k")]);
    let at = out.len() as u32;
    out.extend_from_slice(&directory);
    put32(&mut out, 0x07064b50);
    put32(&mut out, 0);
    put64(&mut out, 0);
    put32(&mut out, 1);
    end_record(&mut out, 1, directory.len() as u32, at, b"");
    let eocd = find_eocd(&out).unwrap();
    assert_eq!(parse_eocd(&out, eocd), (1, at as u64));
    assert_eq!(names(&parse_archive(&out).unwrap()), vec!["kept.png"]);
    // So does a locator that points behind the end of the file.
    let len = out.len();
    out[len - 22 - 20 + 8..len - 22 - 20 + 16].copy_from_slice(&u64::MAX.to_le_bytes());
    assert_eq!(parse_eocd(&out, eocd), (1, at as u64));
}

#[test]
fn directory_ends_at_the_first_bad_signature() {
    let (mut out, mut directory) = lay_out(&[item("a", b"1"), item("b", b"2"), item("c", b"3")]);
    // Break the signature of the third record.
    let third = 2 * (46 + 1 + 2);
    directory[third] = 0;
    let at = out.len() as u32;
    out.extend_from_slice(&directory);
    end_record(&mut out, 3, directory.len() as u32, at, b"");
    assert_eq!(names(&parse_archive(&out).unwrap()), vec!["a", "b"]);
    assert_eq!(read_directory(&out, at as u64, 3).len(), 2);
    // The declared count bounds the walk as well.
    assert_eq!(names(&parse_cd(&out, at as u64, 1)), vec!["a"]);
    assert_eq!(parse_cd(&out, at as u64, 0).len(), 0);
    // A directory that is said to start behind the file is empty.
    assert_eq!(parse_cd(&out, out.len() as u64 + 5, 3).len(), 0);
    assert_eq!(parse_cd(&out, u64::MAX, u64::MAX).len(), 0);
}

#[test]
fn end_record_is_found_behind_a_comment_and_nowhere_else() {
    let (mut out, directory) = lay_out(&[item("a.png", b"1")]);
    let at = out.len() as u32;
    out.extend_from_slice(&directory);
    let eocd = out.len();
    let comment = vec![b'c'; 65535];
    end_record(&mut out, 1, directory.len() as u32, at, &comment);
    assert_eq!(find_eocd(&out), Some(eocd));
    assert_eq!(parse_archive(&out).unwrap().len(), 1);
    // One byte more behind the record and the search no longer reaches it.
    out.push(0);
    assert_eq!(find_eocd(&out), None);
    assert_eq!(parse_archive(&out).err(), Some(ZipError::EocdNotFound));
}

#[test]
fn last_end_signature_wins() {
    let mut zip = build(&[item("a.png", b"1")]);
    let first = zip.len() - 22;
    // A second, empty end record behind the first.
    end_record(&mut zip, 0, 0, 0, b"");
    assert_eq!(find_eocd(&zip), Some(first + 22));
    assert_eq!(parse_archive(&zip).unwrap().len(), 0);
}

#[test]
fn archives_without_an_index_are_refused() {
    assert_eq!(parse_archive(&[]).err(), Some(ZipError::TooSmall));
    assert_eq!(parse_archive(&[0u8; 21]).err(), Some(ZipError::TooSmall));
    assert_eq!(parse_archive(&[0u8; 22]).err(), Some(ZipError::EocdNotFound));
    assert_eq!(parse_archive(&[7u8; 100_000]).err(), Some(ZipError::EocdNotFound));
    assert_eq!(find_eocd(&[0u8; 3]), None);
    assert!(ZipIndex::open(map_of(&[])).is_err());
    assert!(matches!(ZipIndex::open(map_of(&[1u8; 50])), Err(ZipError::EocdNotFound)));
    // The smallest archive: an end record alone.
    let mut empty = Vec::new();
    end_record(&mut empty, 0, 0, 0, b"");
    assert_eq!(empty.len(), 22);
    assert_eq!(parse_archive(&empty).unwrap().len(), 0);
}

#[test]
fn entry_errors_say_what_is_wrong() {
    let zip = build(&[item("a.png", b"abcdef")]);
    let entries = parse_archive(&zip).unwrap();
    assert_eq!(read_entry_at(&zip, &entries, "b.png").err(), Some(ZipError::EntryNotFound));
    assert_eq!(find_entry(&entries, "a.png"), Some(0));
    assert_eq!(find_entry(&entries, "A.png"), None);

    let mut e = EntryMeta {
        name: "a.png".to_string(),
        compression_method: 0,
        compressed_size: 6,
        uncompressed_size: 6,
        local_header_offset: zip.len() as u64 - 29,
    };
    assert_eq!(decompress(&zip, &e).err(), Some(ZipError::HeaderOutOfBounds));
    e.local_header_offset = u64::MAX;
    assert_eq!(decompress(&zip, &e).err(), Some(ZipError::HeaderOutOfBounds));
    e.local_header_offset = 1;
    assert_eq!(decompress(&zip, &e).err(), Some(ZipError::BadLocalSignature));
    e.local_header_offset = 0;
    e.compressed_size = zip.len() as u64;
    assert_eq!(decompress(&zip, &e).err(), Some(ZipError::DataOutOfBounds));
    e.compressed_size = u64::MAX;
    assert_eq!(decompress(&zip, &e).err(), Some(ZipError::DataOutOfBounds));
    e.compressed_size = 6;
    e.compression_method = 12;
    assert_eq!(decompress(&zip, &e).err(), Some(ZipError::UnsupportedMethod(12)));
    // The bounds are checked before the method.
    e.compressed_size = u64::MAX;
    assert_eq!(decompress(&zip, &e).err(), Some(ZipError::DataOutOfBounds));
    e.compressed_size = 6;
    e.compression_method = 8;
    e.uncompressed_size = u64::MAX;
    assert_eq!(decompress(&zip, &e).err(), Some(ZipError::CorruptData));
    e.compression_method = 0;
    assert_eq!(decompress(&zip, &e).unwrap(), b"abcdef".to_vec());
}

#[test]
fn error_kinds_and_messages() {
    assert_eq!(ZipError::EntryNotFound.kind(), ErrorKind::NotFound);
    assert_eq!(ZipError::TooSmall.kind(), ErrorKind::Format);
    assert_eq!(ZipError::UnsupportedMethod(9).kind(), ErrorKind::Format);
    assert_eq!(ZipError::CorruptData.kind(), ErrorKind::Format);
    assert_eq!(ZipError::TooSmall.message(), "File too small to be a ZIP archive");
    assert_eq!(ZipError::EocdNotFound.message(), "EOCD record not found");
    assert_eq!(ZipError::EntryNotFound.message(), "ZIP entry not found");
    assert_eq!(ZipError::UnsupportedMethod(9).message(), "Unsupported compression method");
}

#[test]
fn first_of_two_entries_with_one_name_is_read() {
    let zip = build(&[item("same", b"first"), item("same", b"second")]);
    let entries = parse_archive(&zip).unwrap();
    assert_eq!(read_entry_at(&zip, &entries, "same").unwrap(), b"first".to_vec());
}

#[test]
fn mapped_archive_reads_its_entries() {
    let data = vec![42u8; 5000];
    let zip = build(&[item("s.bin", b"stored"), deflated_item("d.bin", &data)]);
    let index = ZipIndex::open(map_of(&zip)).unwrap();
    assert_eq!(index.read_entry("s.bin").unwrap(), b"stored".to_vec());
    assert_eq!(index.read_entry("d.bin").unwrap(), data);
    assert_eq!(index.read_entry("none").err(), Some(ZipError::EntryNotFound));
}

#[test]
fn utf8_names_without_the_flag_are_read_as_utf8() {
    let mut it = item("그림/日本語.png", b"x");
    it.flags = 0;
    let entries = parse_archive(&build(&[it])).unwrap();
    assert_eq!(entries[0].name, "그림/日本語.png");
}

#[test]
fn flagged_names_that_are_not_utf8_are_read_with_replacements() {
    let mut it = item("x", b"x");
    it.name = vec![b'a', 0xFF, b'b'];
    it.flags = 0x0800;
    let entries = parse_archive(&build(&[it])).unwrap();
    assert_eq!(entries[0].name, "a\u{FFFD}b");
}

#[test]
fn legacy_names_share_one_guessed_encoding() {
    let texts = ["만화/첫번째 이야기 표지.png", "만화/두번째 이야기 한글 파일.png", "plain.png"];
    let mut items = Vec::new();
    let mut detector = chardetng::EncodingDetector::new();
    for t in texts.iter() {
        let (bytes, _, _) = encoding_rs::EUC_KR.encode(t);
        let mut it = item("x", b"x");
        it.name = bytes.to_vec();
        it.flags = 0;
        if std::str::from_utf8(&it.name).is_err() {
            detector.feed(&it.name, false);
        }
        items.push(it);
    }
    detector.feed(&[], true);
    let encoding = detector.guess(None, true);
    let entries = parse_archive(&build(&items)).unwrap();
    for (i, it) in items.iter().enumerate() {
        let expected = if std::str::from_utf8(&it.name).is_ok() {
            String::from_utf8(it.name.clone()).unwrap()
        } else {
            encoding.decode(&it.name).0.into_owned()
        };
        assert_eq!(entries[i].name, expected);
    }
    assert_eq!(encoding, encoding_rs::EUC_KR);
    assert_eq!(entries[0].name, texts[0]);
    assert_eq!(entries[1].name, texts[1]);
    assert_eq!(entries[2].name, "plain.png");
    assert_ne!(entries[0].name, String::from_utf8_lossy(&items[0].name).into_owned());
}
