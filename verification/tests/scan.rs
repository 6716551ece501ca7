use fitscan::BlockRead;
use fitscan::BlockReader;
use fitscan::HduType;
use fitscan::Header;
use fitscan::Page;
use fitscan::ScanError;
use fitscan::read_header;
use fitscan::scan;

fn card(text: &str) -> Vec<u8> {
    format!("{:<80}", text).into_bytes()
}

/// One block holding the given cards, padded with blank cards.
fn block(cards: &[&str]) -> Vec<u8> {
    assert!(cards.len() <= 36);
    let mut out = Vec::new();
    for c in cards {
        out.extend_from_slice(&card(c));
    }
    out.resize(2880, b' ');
    out
}

#[test]
fn single_unit_without_data() {
    let data = block(&["SIMPLE  =                    T", "END"]);
    let table = scan(&data).unwrap();
    assert_eq!(table.units.len(), 1);
    let rec = &table.units[0];
    assert_eq!(rec.header_block_offset, 0);
    assert_eq!(rec.data_block_offset, 2880);
    assert_eq!(rec.data_byte_length, 0);
    assert_eq!(rec.hdu_type, HduType::Image);
    assert!(rec.name.is_none());
}

#[test]
fn header_spanning_two_blocks() {
    // 36 cards in the first block, terminator early in the second.
    let mut data = Vec::new();
    data.extend_from_slice(&card("SIMPLE  =                    T"));
    for i in 0..35 {
        data.extend_from_slice(&card(&format!("COMMENT filler number {}", i)));
    }
    let mut second = Vec::new();
    second.extend_from_slice(&card("HISTORY one more card"));
    second.extend_from_slice(&card("END"));
    second.resize(2880, b' ');
    data.extend_from_slice(&second);
    assert_eq!(data.len(), 5760);

    let table = scan(&data).unwrap();
    assert_eq!(table.units.len(), 1);
    let rec = &table.units[0];
    assert_eq!(rec.header_block_offset, 0);
    // the next unit would start after the second block, not the first
    assert_eq!(rec.data_block_offset, 5760);

    let header = read_header(&data, rec).unwrap();
    assert_eq!(header.cards.len(), 38);
    assert_eq!(header.cards[0].keyword, b"SIMPLE".to_vec());
    assert_eq!(header.cards[1].keyword, b"COMMENT".to_vec());
    assert_eq!(header.cards[36].keyword, b"HISTORY".to_vec());
    assert_eq!(header.cards[37].keyword, b"END".to_vec());
}

#[test]
fn two_unit_stream_offsets() {
    // unit 1: one header block, no data; unit 2: one header block, one
    // data block.
    let mut data = block(&["SIMPLE  =                    T", "END"]);
    data.extend_from_slice(&block(&[
        "XTENSION= 'IMAGE   '",
        "BITPIX  =                    8",
        "NAXIS   =                    1",
        "NAXIS1  =                  100",
        "END",
    ]));
    data.resize(2880 * 3, 0);

    let table = scan(&data).unwrap();
    assert_eq!(table.units.len(), 2);
    assert_eq!(table.units[0].header_block_offset, 0);
    assert_eq!(table.units[1].header_block_offset, 2880);
    assert_eq!(table.units[1].data_block_offset, 5760);
    assert_eq!(table.units[1].data_byte_length, 100);
    assert_eq!(table.units[1].hdu_type, HduType::Image);
}

#[test]
fn partial_final_block_truncates() {
    let mut data = block(&["SIMPLE  =                    T", "END"]);
    data.extend_from_slice(&[0u8; 100]);
    let failure = scan(&data).unwrap_err();
    match failure.error {
        ScanError::TruncatedStream { offset } => assert_eq!(offset, 2880),
        _ => panic!("expected a truncated stream"),
    }
    // the prior unit is still retrievable
    assert_eq!(failure.completed.units.len(), 1);
    assert_eq!(failure.completed.units[0].header_block_offset, 0);
}

#[test]
fn truncated_before_any_unit() {
    let data = vec![b' '; 100];
    let failure = scan(&data).unwrap_err();
    match failure.error {
        ScanError::TruncatedStream { offset } => assert_eq!(offset, 0),
        _ => panic!("expected a truncated stream"),
    }
    assert_eq!(failure.completed.units.len(), 0);
}

#[test]
fn header_without_terminator_fails_that_unit() {
    let data = block(&["SIMPLE  =                    T", "COMMENT no end in sight"]);
    let failure = scan(&data).unwrap_err();
    match failure.error {
        ScanError::UnterminatedHeader { offset } => assert_eq!(offset, 0),
        _ => panic!("expected an unterminated header"),
    }
    assert_eq!(failure.completed.units.len(), 0);
}

#[test]
fn data_shorter_than_declared_truncates() {
    let data = block(&[
        "SIMPLE  =                    T",
        "BITPIX  =                    8",
        "NAXIS   =                    1",
        "NAXIS1  =                  100",
        "END",
    ]);
    // one data block is declared but none follows
    let failure = scan(&data).unwrap_err();
    match failure.error {
        ScanError::TruncatedStream { offset } => assert_eq!(offset, 2880),
        _ => panic!("expected a truncated stream"),
    }
    assert_eq!(failure.completed.units.len(), 0);
}

#[test]
fn binary_table_kind_and_name() {
    let mut data = block(&[
        "XTENSION= 'BINTABLE'",
        "BITPIX  =                    8",
        "NAXIS   =                    2",
        "NAXIS1  =                   10",
        "NAXIS2  =                    3",
        "EXTNAME = 'EVENTS  '",
        "END",
    ]);
    data.resize(2880 * 2, 0);
    let table = scan(&data).unwrap();
    assert_eq!(table.units.len(), 1);
    let rec = &table.units[0];
    assert_eq!(rec.hdu_type, HduType::BinTable);
    assert_eq!(rec.name, Some(b"EVENTS".to_vec()));
    assert_eq!(rec.data_byte_length, 30);
}

#[test]
fn ascii_table_kind_and_unknown_subtype() {
    let mut data = block(&["XTENSION= 'TABLE   '", "END"]);
    data.extend_from_slice(&block(&["XTENSION= 'MYSTERY '", "END"]));
    let table = scan(&data).unwrap();
    assert_eq!(table.units[0].hdu_type, HduType::AsciiTable);
    assert_eq!(table.units[1].hdu_type, HduType::Unknown);
}

#[test]
fn unknown_first_keyword_is_still_indexed() {
    let data = block(&["WHATEVER=                    1", "END"]);
    let table = scan(&data).unwrap();
    assert_eq!(table.units.len(), 1);
    assert_eq!(table.units[0].hdu_type, HduType::Unknown);
}

#[test]
fn later_duplicate_keyword_overrides() {
    let mut data = block(&[
        "SIMPLE  =                    T",
        "BITPIX  =                    8",
        "NAXIS   =                    1",
        "NAXIS1  =                    5",
        "NAXIS1  =                    7",
        "END",
    ]);
    data.resize(2880 * 2, 0);
    let table = scan(&data).unwrap();
    assert_eq!(table.units[0].data_byte_length, 7);
}

#[test]
fn element_width_scales_data_length() {
    let mut data = block(&[
        "SIMPLE  =                    T",
        "BITPIX  =                  -32",
        "NAXIS   =                    2",
        "NAXIS1  =                   10",
        "NAXIS2  =                    4",
        "END",
    ]);
    data.resize(2880 * 2, 0);
    let table = scan(&data).unwrap();
    // 4 bytes per element, 40 elements
    assert_eq!(table.units[0].data_byte_length, 160);
}

#[test]
fn zero_dimensionality_means_no_data() {
    let data = block(&[
        "SIMPLE  =                    T",
        "BITPIX  =                    8",
        "NAXIS   =                    0",
        "END",
    ]);
    let table = scan(&data).unwrap();
    assert_eq!(table.units[0].data_byte_length, 0);
}

#[test]
fn block_reader_hands_out_blocks() {
    let mut data = block(&["SIMPLE  =                    T", "END"]);
    data.extend_from_slice(&[7u8; 100]);
    let mut reader = BlockReader::new(&data);
    assert_eq!(reader.current_offset(), 0);
    match reader.next_block().unwrap() {
        BlockRead::Block(b) => {
            assert_eq!(b.len(), 2880);
            assert_eq!(&b[..6], b"SIMPLE");
        },
        BlockRead::EndOfStream => panic!("expected a block"),
    }
    assert_eq!(reader.current_offset(), 2880);
    match reader.next_block() {
        Err(ScanError::TruncatedStream { offset }) => assert_eq!(offset, 2880),
        _ => panic!("expected truncation"),
    }
}

#[test]
fn block_reader_clean_end_and_skip() {
    let data = vec![0u8; 2880 * 3];
    let mut reader = BlockReader::new(&data);
    reader.skip_blocks(2).unwrap();
    assert_eq!(reader.current_offset(), 5760);
    match reader.next_block().unwrap() {
        BlockRead::Block(b) => assert_eq!(b.len(), 2880),
        BlockRead::EndOfStream => panic!("expected a block"),
    }
    match reader.next_block().unwrap() {
        BlockRead::EndOfStream => {},
        BlockRead::Block(_) => panic!("expected the end of the stream"),
    }
    let mut short = BlockReader::new(&data);
    match short.skip_blocks(4) {
        Err(ScanError::TruncatedStream { offset }) => assert_eq!(offset, 8640),
        _ => panic!("expected truncation"),
    }
}

#[test]
fn page_classifies_first_card() {
    let header = block(&["SIMPLE  =                    T", "END"]);
    assert_eq!(Page::from_chunk(&header).hdu_type, Some(HduType::Image));
    let ext = block(&["XTENSION= 'BINTABLE'", "END"]);
    assert_eq!(Page::from_chunk(&ext).hdu_type, Some(HduType::BinTable));
    let payload = vec![0u8; 2880];
    assert_eq!(Page::from_chunk(&payload).hdu_type, None);
    assert_eq!(Page::from_chunk(b"tiny").hdu_type, None);
}

#[test]
fn header_from_chunk_stops_at_terminator() {
    let chunk = block(&[
        "SIMPLE  =                    T",
        "END",
        "GHOST   =                    1",
    ]);
    let header = Header::from_chunk(&chunk);
    assert_eq!(header.cards.len(), 2);
    assert_eq!(header.cards[0].keyword, b"SIMPLE".to_vec());
    assert_eq!(header.cards[1].keyword, b"END".to_vec());
    assert_eq!(header.unit_kind(), HduType::Image);
    assert_eq!(header.declared_data_len(), Some(0));
    assert!(header.unit_name().is_none());
}

#[test]
fn read_header_reports_stream_errors() {
    let good = block(&["SIMPLE  =                    T", "END"]);
    let table = scan(&good).unwrap();
    let rec = table.units[0].clone();

    // the same record against a stream cut to a partial block
    let cut = &good[..100];
    match read_header(cut, &rec) {
        Err(ScanError::TruncatedStream { offset }) => assert_eq!(offset, 0),
        _ => panic!("expected truncation"),
    }

    // and against a stream whose only block never terminates
    let unterminated = block(&["SIMPLE  =                    T"]);
    match read_header(&unterminated, &rec) {
        Err(ScanError::UnterminatedHeader { offset }) => assert_eq!(offset, 0),
        _ => panic!("expected an unterminated header"),
    }
}
