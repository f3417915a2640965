use std::io::{Read, Write};

use polygenic_score::common::FileType;
use polygenic_score::container::{
    decode, decode_blocks, read_block_header, BlockSpan, Compression,
};
use polygenic_score::error::{FormatError, VcfError};
use polygenic_score::multi_sample::calculate_polygenic_score_multi;
use polygenic_score::single_sample::{calculate_polygenic_score, score_single_sample};
use polygenic_score::weights::WeightTable;

fn deflate(bytes: &[u8]) -> Vec<u8> {
    let mut encoder =
        flate2::write::DeflateEncoder::new(Vec::new(), flate2::Compression::default());
    encoder.write_all(bytes).unwrap();
    encoder.finish().unwrap()
}

fn gzip(bytes: &[u8]) -> Vec<u8> {
    let mut encoder = flate2::write::GzEncoder::new(Vec::new(), flate2::Compression::default());
    encoder.write_all(bytes).unwrap();
    encoder.finish().unwrap()
}

fn block(bytes: &[u8]) -> Vec<u8> {
    let payload = deflate(bytes);
    let total = 18 + payload.len() + 8;
    let mut crc = flate2::Crc::new();
    crc.update(bytes);
    let mut out: Vec<u8> = vec![0x1f, 0x8b, 8, 4, 0, 0, 0, 0, 0, 0xff, 6, 0, b'B', b'C', 2, 0];
    out.extend_from_slice(&((total - 1) as u16).to_le_bytes());
    out.extend_from_slice(&payload);
    out.extend_from_slice(&crc.sum().to_le_bytes());
    out.extend_from_slice(&(bytes.len() as u32).to_le_bytes());
    assert_eq!(out.len(), total);
    out
}

fn bgzf(parts: &[&[u8]]) -> Vec<u8> {
    let mut out: Vec<u8> = Vec::new();
    for part in parts {
        out.extend_from_slice(&block(part));
    }
    out.extend_from_slice(&block(b""));
    out
}

const VCF: &[u8] = b"##fileformat=VCFv4.2\n\
##source=test\n\
#CHROM\tPOS\tID\tREF\tALT\tQUAL\tFILTER\tINFO\tFORMAT\tS1\n\
1\t100\t.\tA\tC\t.\t.\t.\tGT\t0/1\n\
1\t200\t.\tA\tG\t.\t.\t.\tGT\t1/1\n\
2\t300\t.\tC\tT\t.\t.\t.\tGT\t./1\n\
9\t1\t.\tC\tT\t.\t.\t.\tGT\t0/1\n";

fn small_table() -> WeightTable {
    let mut table = WeightTable::new();
    table.insert(b"1", 100, b"A", 0);
    table.insert(b"1", 200, b"G", 1);
    table.insert(b"2", 300, b"T", 2);
    table
}

#[test]
fn the_block_magic_is_tried_before_the_gzip_magic() {
    assert_eq!(Compression::detect(&[0x1f, 0x8b, 8, 4, 0, 0]), Compression::Bgzf);
    assert_eq!(Compression::detect(&[0x1f, 0x8b, 8, 4]), Compression::Bgzf);
    assert_eq!(Compression::detect(&[0x1f, 0x8b, 8, 0, 0, 0]), Compression::Gzip);
    assert_eq!(Compression::detect(&[0x1f, 0x8b, 8, 8]), Compression::Gzip);
    assert_eq!(Compression::detect(&[0x1f, 0x8b, 8]), Compression::Gzip);
    assert_eq!(Compression::detect(b"##fileformat=VCFv4.2\n"), Compression::Plain);
    assert_eq!(Compression::detect(&[0x1f, 0x8b, 9, 4]), Compression::Plain);
    assert_eq!(Compression::detect(&[0x8b, 0x1f, 8, 4]), Compression::Plain);
}

#[test]
fn a_source_shorter_than_the_magic_is_plain() {
    assert_eq!(Compression::detect(b""), Compression::Plain);
    assert_eq!(Compression::detect(&[0x1f]), Compression::Plain);
    assert_eq!(Compression::detect(&[0x1f, 0x8b]), Compression::Plain);
}

#[test]
fn real_containers_are_recognised() {
    assert_eq!(Compression::detect(&gzip(VCF)), Compression::Gzip);
    assert_eq!(Compression::detect(&bgzf(&[VCF])), Compression::Bgzf);
    assert_eq!(Compression::detect(VCF), Compression::Plain);
}

#[test]
fn a_block_header_gives_the_span_of_its_payload() {
    let mut data: Vec<u8> = vec![0x1f, 0x8b, 8, 4, 0, 0, 0, 0, 0, 0xff, 6, 0, b'B', b'C', 2, 0];
    data.extend_from_slice(&[27, 0]);
    data.extend_from_slice(&[3, 0, 0, 0, 0, 0, 0, 0, 0, 0]);
    assert_eq!(data.len(), 28);
    assert_eq!(read_block_header(&data, 0), Ok(Some(BlockSpan { payload_start: 18, end: 28 })));
    assert_eq!(read_block_header(&data, 28), Ok(None));
    let mut two = data.clone();
    two.extend_from_slice(&data);
    assert_eq!(read_block_header(&two, 28), Ok(Some(BlockSpan { payload_start: 46, end: 56 })));
}

#[test]
fn the_block_size_is_little_endian() {
    let mut data: Vec<u8> = vec![0x1f, 0x8b, 8, 4, 0, 0, 0, 0, 0, 0xff, 6, 0, b'B', b'C', 2, 0];
    data.extend_from_slice(&[0x2b, 0x01]);
    data.resize(300, 0);
    assert_eq!(read_block_header(&data, 0), Ok(Some(BlockSpan { payload_start: 18, end: 300 })));
    data.truncate(299);
    assert_eq!(read_block_header(&data, 0), Err(FormatError::MalformedBlock));
}

#[test]
fn malformed_block_headers_are_errors() {
    let good: Vec<u8> =
        vec![0x1f, 0x8b, 8, 4, 0, 0, 0, 0, 0, 0xff, 6, 0, b'B', b'C', 2, 0, 17, 0];
    assert_eq!(read_block_header(&good, 0), Ok(Some(BlockSpan { payload_start: 18, end: 18 })));
    assert_eq!(read_block_header(&good[..17], 0), Err(FormatError::MalformedBlock));
    assert_eq!(read_block_header(&good[..1], 0), Err(FormatError::MalformedBlock));
    let mut bad_magic = good.clone();
    bad_magic[3] = 0;
    assert_eq!(read_block_header(&bad_magic, 0), Err(FormatError::BadMagic));
    let mut bad_first = good.clone();
    bad_first[0] = b'#';
    assert_eq!(read_block_header(&bad_first, 0), Err(FormatError::BadMagic));
    let mut too_small = good.clone();
    too_small[16] = 16;
    assert_eq!(read_block_header(&too_small, 0), Err(FormatError::MalformedBlock));
    let mut too_large = good.clone();
    too_large[16] = 18;
    assert_eq!(read_block_header(&too_large, 0), Err(FormatError::MalformedBlock));
}

#[test]
fn blocks_decode_to_their_joined_contents() {
    assert_eq!(decode_blocks(&bgzf(&[b"hello ", b"", b"world\n"])), Ok(b"hello world\n".to_vec()));
    assert_eq!(decode_blocks(&bgzf(&[])), Ok(Vec::new()));
    assert_eq!(decode_blocks(b""), Ok(Vec::new()));
    let large: Vec<u8> = (0..60000u32).map(|i| (i % 251) as u8).collect();
    assert_eq!(decode_blocks(&bgzf(&[&large, &large])), Ok([large.clone(), large].concat()));
}

#[test]
fn the_blocks_are_a_gzip_stream_too() {
    let data = bgzf(&[b"one\n", b"two\n"]);
    let mut text = Vec::new();
    flate2::read::MultiGzDecoder::new(&data[..]).read_to_end(&mut text).unwrap();
    assert_eq!(text, b"one\ntwo\n");
    assert_eq!(decode_blocks(&data).unwrap(), text);
}

#[test]
fn broken_blocks_are_errors() {
    let data = bgzf(&[b"hello hello hello hello", b"world"]);
    assert_eq!(decode_blocks(&data[..data.len() - 1]), Err(FormatError::MalformedBlock));
    assert_eq!(decode_blocks(&data[..20]), Err(FormatError::MalformedBlock));
    let mut garbage_after = data.clone();
    garbage_after.extend_from_slice(b"this is no block at all");
    assert_eq!(decode_blocks(&garbage_after), Err(FormatError::BadMagic));
    let mut corrupt = data.clone();
    for byte in corrupt[18..26].iter_mut() {
        *byte = 0xff;
    }
    assert_eq!(decode_blocks(&corrupt), Err(FormatError::InflateFailed));
    let mut empty_payload = data[..18].to_vec();
    empty_payload[16] = 17;
    empty_payload[17] = 0;
    assert_eq!(decode_blocks(&empty_payload), Err(FormatError::InflateFailed));
}

#[test]
fn decode_follows_the_container() {
    assert_eq!(decode(VCF), Ok(VCF.to_vec()));
    assert_eq!(decode(&gzip(VCF)), Ok(VCF.to_vec()));
    assert_eq!(decode(&bgzf(&[&VCF[..50], &VCF[50..]])), Ok(VCF.to_vec()));
    assert_eq!(decode(b""), Ok(Vec::new()));
    let mut members = gzip(b"first\n");
    members.extend_from_slice(&gzip(b"second\n"));
    assert_eq!(decode(&members), Ok(b"first\nsecond\n".to_vec()));
}

#[test]
fn a_broken_gzip_stream_is_an_error() {
    let data = gzip(VCF);
    assert_eq!(decode(&data[..data.len() / 2]), Err(FormatError::InflateFailed));
    assert_eq!(decode(&[0x1f, 0x8b, 8, 0, 1, 2, 3]), Err(FormatError::InflateFailed));
}

#[test]
fn compressed_and_plain_files_give_identical_aggregates() {
    let table = small_table();
    let plain = calculate_polygenic_score(VCF, &table).unwrap();
    assert_eq!(plain.totals.total_variants, 4);
    assert_eq!(plain.totals.matched_variants, 2);
    assert_eq!(plain.skipped_lines, 0);
    assert!(!plain.vcf_chr_format.has_chr_prefix);
    assert_eq!(calculate_polygenic_score(&gzip(VCF), &table).unwrap(), plain);
    assert_eq!(calculate_polygenic_score(&bgzf(&[VCF]), &table).unwrap(), plain);
    assert_eq!(
        calculate_polygenic_score(&bgzf(&[&VCF[..7], &VCF[7..99], &VCF[99..]]), &table).unwrap(),
        plain
    );
    assert_eq!(score_single_sample(VCF, &table).unwrap(), plain);
    let multi = calculate_polygenic_score_multi(VCF, &table).unwrap();
    assert_eq!(calculate_polygenic_score_multi(&gzip(VCF), &table).unwrap(), multi);
    assert_eq!(calculate_polygenic_score_multi(&bgzf(&[VCF]), &table).unwrap(), multi);
    assert_eq!(multi.samples, vec![plain.totals.clone()]);
}

#[test]
fn container_errors_end_a_run() {
    let table = small_table();
    let data = bgzf(&[VCF]);
    assert_eq!(
        calculate_polygenic_score(&data[..data.len() - 3], &table),
        Err(VcfError::InvalidFormat(FormatError::MalformedBlock))
    );
    let packed = gzip(VCF);
    assert_eq!(
        calculate_polygenic_score_multi(&packed[..30], &table),
        Err(VcfError::InvalidFormat(FormatError::InflateFailed))
    );
    assert_eq!(
        FileType::detect(&packed[..30]),
        Err(VcfError::InvalidFormat(FormatError::InflateFailed))
    );
}

#[test]
fn the_file_type_is_told_through_any_container() {
    assert_eq!(FileType::detect(VCF), Ok(FileType::SingleSample));
    assert_eq!(FileType::detect(&gzip(VCF)), Ok(FileType::SingleSample));
    assert_eq!(FileType::detect(&bgzf(&[VCF])), Ok(FileType::SingleSample));
}
