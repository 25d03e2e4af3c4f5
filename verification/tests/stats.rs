use fakefont::stats::{table_stats, table_stats_from_records};

/// A font file with just a table directory.
fn sfnt(tables: &[(&[u8; 4], u32)]) -> Vec<u8> {
    let mut bytes = vec![];
    bytes.extend_from_slice(&0x0001_0000u32.to_be_bytes());
    bytes.extend_from_slice(&(tables.len() as u16).to_be_bytes());
    bytes.extend_from_slice(&[0, 0, 0, 0, 0, 0]);
    for (tag, length) in tables {
        bytes.extend_from_slice(*tag);
        bytes.extend_from_slice(&0u32.to_be_bytes());
        bytes.extend_from_slice(&0u32.to_be_bytes());
        bytes.extend_from_slice(&length.to_be_bytes());
    }
    bytes
}

#[test]
fn table_lengths_by_tag() {
    let stats = table_stats(&sfnt(&[(b"glyf", 1000), (b"head", 54), (b"gvar", 300)])).expect("stats");
    assert_eq!(
        stats,
        vec![("glyf".to_string(), 1000), ("head".to_string(), 54), ("gvar".to_string(), 300)]
    );
}

#[test]
fn not_a_font_is_an_error() {
    assert!(table_stats(&[1, 2, 3]).is_err());
    assert!(table_stats(&[]).is_err());
}

#[test]
fn later_records_replace_earlier_ones() {
    let records = vec![("glyf".to_string(), 10u32), ("head".to_string(), 54), ("glyf".to_string(), 12)];
    assert_eq!(
        table_stats_from_records(Ok(records)),
        Ok(vec![("glyf".to_string(), 12usize), ("head".to_string(), 54)])
    );
    assert_eq!(table_stats_from_records(Err("bad".to_string())), Err("bad".to_string()));
}
