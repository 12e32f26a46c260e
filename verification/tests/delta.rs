use gridlock_launcher::adler::{adler32, Rolling};
use gridlock_launcher::blob::{nblocks, table_len, Table, TableError, FLAG_ZLIB, MAGIC};
use gridlock_launcher::search::{Filter, OldFileSearch, ScanStep};
use gridlock_launcher::transfer::{
    check_part_block, checked_table_len, decode, header_block, hex_matches, missing_ranges,
    missing_runs, part_action, part_extension, read_table, response_action, settle, BlobError,
    BlockError, BlockStream, PartAction, ResponseAction,
};
use sha2::{Digest, Sha256};
use std::io::Write;

fn xorshift(seed: u64, len: usize) -> Vec<u8> {
    let mut s = seed;
    (0..len)
        .map(|_| {
            s ^= s << 13;
            s ^= s >> 7;
            s ^= s << 17;
            (s >> 24) as u8
        })
        .collect()
}

#[test]
fn adler32_matches_zlib() {
    // values from python: zlib.adler32(...)
    assert_eq!(adler32(b""), 0x1);
    assert_eq!(adler32(b"Wikipedia"), 0x11e60398);
    let bytes: Vec<u8> = (0..256u32).map(|x| x as u8).collect::<Vec<_>>().repeat(600);
    assert_eq!(adler32(&bytes), 0x1925e577);
    assert_eq!(adler32(&vec![b'x'; 200000]), 0xc5914b73);
}

#[test]
fn rolling_equals_direct() {
    let data = xorshift(7, 300_000);
    let w = 4096;
    let mut r = Rolling::new(&data[..w]);
    for pos in 0..data.len() - w {
        if pos < 3000 || pos % 997 == 0 {
            assert_eq!(r.value(), adler32(&data[pos..pos + w]), "at {pos}");
        }
        r.roll(data[pos], data[pos + w]);
    }
}

#[test]
fn runs_absorb_short_gaps() {
    let mut f = vec![true; 40];
    for i in [3, 4, 5, 9, 20, 39] {
        f[i] = false;
    }
    assert_eq!(missing_runs(&f, 2), vec![(3, 5), (9, 9), (20, 20), (39, 39)]);
    assert_eq!(missing_runs(&f, 3), vec![(3, 9), (20, 20), (39, 39)]);
    assert_eq!(missing_runs(&[true, true], 8), vec![]);
}

#[test]
fn runs_of_nothing_missing_and_everything_missing() {
    assert_eq!(missing_runs(&[], 8), vec![]);
    assert_eq!(missing_runs(&[false, false, false], 0), vec![(0, 2)]);
    assert_eq!(missing_runs(&[false, true, false], 0), vec![(0, 0), (2, 2)]);
    assert_eq!(missing_runs(&[false, true, false], 1), vec![(0, 2)]);
}

/// The publisher's format, for the tests.
fn make_blob(data: &[u8], block: usize) -> Vec<u8> {
    let n = data.len().div_ceil(block);
    let mut table = Vec::new();
    let mut payload = Vec::new();
    for chunk in data.chunks(block) {
        let mut enc = flate2::write::ZlibEncoder::new(Vec::new(), flate2::Compression::new(6));
        enc.write_all(chunk).unwrap();
        let z = enc.finish().unwrap();
        let (stored, flags): (&[u8], u32) =
            if z.len() * 100 < chunk.len() * 95 { (&z, FLAG_ZLIB) } else { (chunk, 0) };
        table.extend_from_slice(&adler32(chunk).to_le_bytes());
        table.extend_from_slice(&Sha256::digest(chunk)[..16]);
        table.extend_from_slice(&(stored.len() as u32).to_le_bytes());
        table.extend_from_slice(&flags.to_le_bytes());
        payload.extend_from_slice(stored);
    }
    let mut out = Vec::new();
    out.extend_from_slice(&MAGIC);
    out.extend_from_slice(&(block as u32).to_le_bytes());
    out.extend_from_slice(&(data.len() as u64).to_le_bytes());
    out.extend_from_slice(&(n as u32).to_le_bytes());
    out.extend_from_slice(&0u32.to_le_bytes());
    out.extend(table);
    out.extend(payload);
    out
}

#[test]
fn block_counts_and_table_length() {
    assert_eq!(nblocks(0, 4), 0);
    assert_eq!(nblocks(8, 4), 2);
    assert_eq!(nblocks(9, 4), 3);
    assert_eq!(table_len(9, 4), 24 + 3 * 28);
    assert_eq!(checked_table_len(9, 4), Some(24 + 3 * 28));
    assert_eq!(checked_table_len(9, 0), None);
}

#[test]
fn table_parses_what_the_publisher_writes() {
    let data = xorshift(3, 10_000);
    let blob = make_blob(&data, 4096);
    let t = Table::parse(&blob).unwrap();
    assert_eq!(t.block, 4096);
    assert_eq!(t.size, 10_000);
    assert_eq!(t.entries.len(), 3);
    assert_eq!(t.entries[1].weak, adler32(&data[4096..8192]));
    assert_eq!(&t.entries[1].strong[..], &Sha256::digest(&data[4096..8192])[..16]);
    assert_eq!(t.raw_len(0), 4096);
    assert_eq!(t.raw_len(2), 10_000 - 8192);
    assert!(t.is_consistent());
    assert_eq!(t.payload_start(), (24 + 3 * 28) as u64);
    let offs = t.payload_offsets();
    assert_eq!(offs.len(), 4);
    assert_eq!(offs[0], 0);
    assert_eq!(offs[3], (blob.len() - (24 + 3 * 28)) as u64);
}

#[test]
fn table_errors() {
    let data = xorshift(3, 10_000);
    let blob = make_blob(&data, 4096);
    assert_eq!(Table::parse(&blob[..10]).err(), Some(TableError::NotGlb1));
    let mut bad = blob.clone();
    bad[0] = b'X';
    assert_eq!(Table::parse(&bad).err(), Some(TableError::NotGlb1));
    let mut zero = blob.clone();
    zero[4..8].copy_from_slice(&0u32.to_le_bytes());
    assert_eq!(Table::parse(&zero).err(), Some(TableError::Inconsistent));
    let mut count = blob.clone();
    count[16..20].copy_from_slice(&4u32.to_le_bytes());
    assert_eq!(Table::parse(&count).err(), Some(TableError::Inconsistent));
    assert_eq!(Table::parse(&blob[..24 + 2 * 28]).err(), Some(TableError::Short));
    assert_eq!(TableError::Short.message(), "blob table is short");
    match read_table(&blob, 9_999) {
        Err(e @ BlobError::SizeMismatch { .. }) => {
            assert_eq!(e.message(), "blob says 10000 bytes, manifest says 9999")
        }
        _ => panic!("size mismatch expected"),
    }
    assert!(read_table(&blob, 10_000).is_ok());
}

#[test]
fn header_block_reads_the_block_size() {
    let blob = make_blob(&xorshift(1, 100), 64);
    assert_eq!(header_block(&blob), Some(64));
    assert_eq!(header_block(&blob[..23]), None);
    assert_eq!(header_block(b"NOPE00000000000000000000"), None);
}

#[test]
fn decode_checks_length_and_hash() {
    let mut data = xorshift(5, 5000);
    data.extend(std::iter::repeat(0u8).take(5000));
    let blob = make_blob(&data, 4096);
    let t = Table::parse(&blob).unwrap();
    let offs = t.payload_offsets();
    let base = t.payload_start() as usize;
    for i in 0..t.entries.len() {
        let stored = &blob[base + offs[i] as usize..base + offs[i + 1] as usize];
        let raw = decode(&t, i, stored).unwrap();
        assert_eq!(raw, &data[i * 4096..(i * 4096 + t.raw_len(i))]);
    }
    // the zero block is stored compressed
    assert!(t.entries[2].flags & FLAG_ZLIB != 0);
    let stored1 = &blob[base + offs[1] as usize..base + offs[2] as usize];
    assert_eq!(decode(&t, 0, stored1), Err(BlockError::Mismatch(0)));
    assert!(matches!(decode(&t, 2, &[1, 2, 3]), Err(BlockError::Inflate(2, _))));
    assert_eq!(BlockError::Mismatch(7).message(), "block 7 does not match its hash");
}

#[test]
fn filter_has_what_was_set() {
    let mut f = Filter::new();
    assert!(!f.has(12345));
    f.set(12345);
    f.set(0xdeadbeef);
    assert!(f.has(12345));
    assert!(f.has(0xdeadbeef));
    assert_eq!(Filter::slot(1), (0x9E37_79B1u32 >> 10) as usize);
}

#[test]
fn block_stream_cuts_consecutive_blocks() {
    let bytes = xorshift(11, 10_000);
    let mut s = BlockStream::new();
    let mut out = Vec::new();
    let sizes = [100usize, 3000, 1, 4000, 2899];
    let mut next = 0;
    for chunk in bytes.chunks(777) {
        s.push(chunk);
        while next < sizes.len() && s.buffered() >= sizes[next] {
            out.extend(s.take(sizes[next]));
            next += 1;
        }
    }
    assert_eq!(next, sizes.len());
    assert_eq!(out, bytes);
    assert_eq!(s.buffered(), 0);
}

#[test]
fn partial_files_and_responses() {
    assert_eq!(part_action(Some(10), 20), PartAction::Resume);
    assert_eq!(part_action(Some(20), 20), PartAction::Discard);
    assert_eq!(part_action(None, 20), PartAction::Fresh);
    assert_eq!(response_action(10, 206), ResponseAction::Append);
    assert_eq!(response_action(0, 206), ResponseAction::Restart);
    assert_eq!(response_action(10, 200), ResponseAction::Restart);
    assert_eq!(response_action(10, 416), ResponseAction::Fail);
    assert_eq!(part_extension(Some("bin")), "bin.part");
    assert_eq!(part_extension(None), "part");
}

#[test]
fn hex_of_a_digest_is_compared() {
    let d = Sha256::digest(b"abc");
    assert!(hex_matches(&d, "ba7816bf8f01cfea414140de5dae2223b00361a396177a9cb410ff61f20015ad"));
    assert!(!hex_matches(&d, "BA7816BF8F01CFEA414140DE5DAE2223B00361A396177A9CB410FF61F20015AD"));
    assert!(!hex_matches(&d, &"0".repeat(64)));
}

/// The whole update without a network: blocks found in the old copy, the rest cut out of the
/// blob's payload, and the progress count ending at the payload size.
fn update_in_memory(old: &[u8], new: &[u8], block: usize, part: Option<&[u8]>) -> (u64, u64) {
    let blob = make_blob(new, block);
    let table = read_table(&blob[..table_len(new.len() as u64, block as u32)], new.len() as u64)
        .unwrap();
    let n = table.entries.len();
    let mut found = vec![false; n];
    let mut out = vec![0u8; new.len()];
    let mut settled = 0u64;
    if let Some(part) = part {
        for i in 0..n {
            let len = table.raw_len(i);
            let data = &part[i * block..i * block + len];
            let ok = check_part_block(&table, &mut found, i, data);
            if ok > 0 {
                out[i * block..i * block + len].copy_from_slice(data);
            }
            settled += ok;
        }
    }
    if let Some(mut scan) = OldFileSearch::new(&table, &found) {
        let mut at = 0;
        loop {
            match scan.step(&table, &mut found) {
                ScanStep::NeedData => {
                    let take = scan.space().min(old.len() - at).min(100_000);
                    if take == 0 {
                        scan.end_of_input();
                    } else {
                        scan.supply(&old[at..at + take]);
                        at += take;
                    }
                }
                ScanStep::Found { blocks, data } => {
                    for i in blocks {
                        out[i * block..i * block + data.len()].copy_from_slice(&data);
                        settled += table.entries[i].stored as u64;
                    }
                }
                ScanStep::Finished => break,
            }
        }
    }
    let mut downloaded = 0u64;
    for r in missing_ranges(&table, &found) {
        let bytes = &blob[r.start as usize..r.end as usize];
        downloaded += bytes.len() as u64;
        let mut stream = BlockStream::new();
        let mut chunks = bytes.chunks(5000);
        for i in r.first..=r.last {
            let need = table.entries[i].stored as usize;
            while stream.buffered() < need {
                stream.push(chunks.next().unwrap());
            }
            let raw = decode(&table, i, &stream.take(need)).unwrap();
            out[i * block..i * block + raw.len()].copy_from_slice(&raw);
            settled += settle(&table, &mut found, i);
        }
    }
    assert!(found.iter().all(|&f| f));
    assert_eq!(out, new);
    let payload = (blob.len() - table_len(new.len() as u64, block as u32)) as u64;
    assert_eq!(settled, payload);
    (downloaded, payload)
}

#[test]
fn update_reuses_shifted_blocks_in_memory() {
    let block = 65536usize;
    let old = {
        let mut v = xorshift(1, 3_000_000);
        v.extend(b"the quick brown fox ".repeat(40_000));
        v
    };
    let mut new = old[..1_000_000].to_vec();
    new.extend(xorshift(2, 100_000));
    new.extend_from_slice(&old[1_000_000..]);
    new[2_500_000] ^= 0xff;
    let (net, _) = update_in_memory(&old, &new, block, None);
    assert!(net < 600_000, "downloaded {net} of {}", new.len());
    // fresh install: nothing to reuse, everything comes from the payload once
    let (net, payload) = update_in_memory(&[], &new, block, None);
    assert_eq!(net, payload);
    // resume: a partial file with the first half already written and the rest zeros
    let mut half = new[..1_500_000].to_vec();
    half.resize(new.len(), 0);
    let (net, _) = update_in_memory(&[], &new, block, Some(&half));
    assert!(net < new.len() as u64 * 2 / 3);
}

#[test]
fn zero_padding_is_reused_in_memory() {
    let block = 65536usize;
    let mut old = xorshift(5, 500_000);
    old.extend(std::iter::repeat(0u8).take(2_000_000));
    old.extend(xorshift(6, 300_000));
    let mut new = old.clone();
    new.splice(200_000..200_000, xorshift(9, 50_000));
    let t0 = std::time::Instant::now();
    let (net, _) = update_in_memory(&old, &new, block, None);
    assert!(t0.elapsed() < std::time::Duration::from_secs(20));
    assert!(net < 300_000, "downloaded {net}");
}

#[test]
fn overlapping_blocks_of_the_old_file_are_all_found() {
    // the new file's two blocks sit one byte apart in the old file: after the first is found,
    // the window one byte further on still holds the second
    let block = 4096usize;
    let old = xorshift(11, 3 * block);
    let mut new = old[..block].to_vec();
    new.extend_from_slice(&old[1..block + 1]);
    let (downloaded, _) = update_in_memory(&old, &new, block, None);
    assert_eq!(downloaded, 0);
}

#[test]
fn repeated_windows_do_not_hide_a_block() {
    // zero padding whose windows share the weak hash of nothing wanted, then the wanted block
    let block = 4096usize;
    let mut old = vec![0u8; 5 * block];
    let wanted = xorshift(12, block);
    old.extend_from_slice(&wanted);
    let mut new = wanted.clone();
    new.extend(xorshift(13, 10));
    let (downloaded, _) = update_in_memory(&old, &new, block, None);
    // only the short last block travels
    assert!(downloaded < 100, "downloaded {downloaded}");
}

#[test]
fn wider_gap_merges_runs() {
    let mut f = vec![true; 40];
    for i in [3, 4, 5, 9, 20, 39] {
        f[i] = false;
    }
    let narrow = missing_runs(&f, 2);
    let wide = missing_runs(&f, 3);
    assert!(wide.len() <= narrow.len());
    for (s, e) in &narrow {
        assert!(wide.iter().any(|(s2, e2)| s2 <= s && e <= e2));
    }
}

#[test]
fn block_lengths_add_up_to_the_file() {
    let data = xorshift(14, 10_000);
    let blob = make_blob(&data, 4096);
    let t = Table::parse(&blob).unwrap();
    let total: usize = (0..t.entries.len()).map(|i| t.raw_len(i)).sum();
    assert_eq!(total, data.len());
    assert_eq!(t.payload_start(), table_len(data.len() as u64, 4096) as u64);
    let offs = t.payload_offsets();
    assert_eq!(t.payload_start() + offs[t.entries.len()], blob.len() as u64);
}
