use backfill_derived_data::codec::{
    deserialize_cs_entries, serialize_cs_entries, CommitEntry, DecodeError, FORMAT_VERSION,
};
use backfill_derived_data::enumerate::{
    changeset_windows, collect_public, retain_public, EnumerateError, ROW_WINDOW,
};
use backfill_derived_data::ids::ChangesetId;
use backfill_derived_data::windows::{next_window, windows};

fn id(n: u8) -> ChangesetId {
    ChangesetId::new([n; 32])
}

fn entry(n: u8, gen: u64, parents: &[u8]) -> CommitEntry {
    CommitEntry { cs_id: id(n), gen, parents: parents.iter().map(|p| id(*p)).collect() }
}

#[test]
fn windows_exact_values() {
    assert_eq!(windows(0, 10, 4), vec![(0, 4), (4, 8), (8, 10)]);
    assert_eq!(windows(5, 6, 100), vec![(5, 6)]);
    assert_eq!(windows(0, 8, 4), vec![(0, 4), (4, 8)]);
}

#[test]
fn windows_empty_range() {
    assert!(windows(7, 7, 3).is_empty());
}

#[test]
fn windows_tile_the_range() {
    for (start, stop, step) in [(0u64, 100u64, 7u64), (3, 4, 1), (10, 1000, 65536), (1, 50, 50)] {
        let w = windows(start, stop, step);
        assert_eq!(w[0].0, start);
        assert_eq!(w[w.len() - 1].1, stop);
        for i in 0..w.len() {
            assert!(w[i].0 < w[i].1 && w[i].1 - w[i].0 <= step);
            if i + 1 < w.len() {
                assert_eq!(w[i].1, w[i + 1].0);
            }
        }
    }
}

#[test]
fn windows_near_the_top_of_u64() {
    let top = u64::MAX;
    assert_eq!(windows(top - 5, top, 4), vec![(top - 5, top - 1), (top - 1, top)]);
}

#[test]
fn next_window_steps() {
    assert_eq!(next_window(0, 10, 4), Some((0, 4)));
    assert_eq!(next_window(8, 10, 4), Some((8, 10)));
    assert_eq!(next_window(10, 10, 4), None);
}

#[test]
fn round_trip_empty_list() {
    let bytes = serialize_cs_entries(&vec![]);
    assert_eq!(bytes, vec![FORMAT_VERSION, 0, 0, 0, 0, 0, 0, 0, 0]);
    assert_eq!(deserialize_cs_entries(&bytes), Ok(vec![]));
}

#[test]
fn round_trip_zero_and_many_parents() {
    let entries = vec![entry(1, 0, &[]), entry(2, 1, &[1]), entry(3, 2, &[1, 2, 9])];
    let bytes = serialize_cs_entries(&entries);
    assert_eq!(deserialize_cs_entries(&bytes), Ok(entries));
}

#[test]
fn encoding_layout_of_one_entry() {
    let bytes = serialize_cs_entries(&vec![entry(7, 258, &[5])]);
    let mut expected = vec![FORMAT_VERSION, 0, 0, 0, 0, 0, 0, 0, 1];
    expected.extend_from_slice(&[7u8; 32]);
    expected.extend_from_slice(&[0, 0, 0, 0, 0, 0, 1, 2]);
    expected.extend_from_slice(&[0, 0, 0, 0, 0, 0, 0, 1]);
    expected.extend_from_slice(&[5u8; 32]);
    assert_eq!(bytes, expected);
}

#[test]
fn decode_rejects_unknown_version() {
    let mut bytes = serialize_cs_entries(&vec![entry(1, 0, &[])]);
    bytes[0] = 9;
    assert_eq!(deserialize_cs_entries(&bytes), Err(DecodeError::UnknownVersion));
}

#[test]
fn decode_rejects_truncated_and_trailing_bytes() {
    let bytes = serialize_cs_entries(&vec![entry(1, 0, &[2])]);
    assert_eq!(deserialize_cs_entries(&bytes[..bytes.len() - 1].to_vec()), Err(DecodeError::Malformed));
    let mut longer = bytes.clone();
    longer.push(0);
    assert_eq!(deserialize_cs_entries(&longer), Err(DecodeError::Malformed));
    assert_eq!(deserialize_cs_entries(&vec![]), Err(DecodeError::Malformed));
    assert_eq!(deserialize_cs_entries(&vec![FORMAT_VERSION, 0, 0]), Err(DecodeError::Malformed));
}

#[test]
fn decode_rejects_huge_parent_count() {
    let mut bytes = vec![FORMAT_VERSION, 0, 0, 0, 0, 0, 0, 0, 1];
    bytes.extend_from_slice(&[1u8; 32]);
    bytes.extend_from_slice(&[0u8; 8]);
    bytes.extend_from_slice(&[255u8; 8]);
    assert_eq!(deserialize_cs_entries(&bytes), Err(DecodeError::Malformed));
}

#[test]
fn changeset_windows_of_empty_table() {
    assert_eq!(changeset_windows(None, Some(3)), Err(EnumerateError::EmptyRepository));
    assert_eq!(changeset_windows(Some(3), None), Err(EnumerateError::EmptyRepository));
    assert_eq!(changeset_windows(None, None), Err(EnumerateError::EmptyRepository));
}

#[test]
fn changeset_windows_of_a_table() {
    assert_eq!(
        changeset_windows(Some(1), Some(2 * ROW_WINDOW + 3)),
        Ok(vec![(1, ROW_WINDOW + 1), (ROW_WINDOW + 1, 2 * ROW_WINDOW + 1), (2 * ROW_WINDOW + 1, 2 * ROW_WINDOW + 3)])
    );
    assert_eq!(changeset_windows(Some(4), Some(4)), Ok(vec![]));
}

#[test]
fn prefetch_keeps_only_public_commits() {
    let entries = vec![entry(1, 0, &[]), entry(2, 1, &[1]), entry(3, 2, &[2])];
    let public = vec![id(1), id(3)];
    let kept = retain_public(entries, &public);
    assert_eq!(kept, vec![entry(1, 0, &[]), entry(3, 2, &[2])]);
    let snapshot = serialize_cs_entries(&kept);
    assert_eq!(deserialize_cs_entries(&snapshot), Ok(vec![entry(1, 0, &[]), entry(3, 2, &[2])]));
}

#[test]
fn changeset_id_equality() {
    assert!(id(1).same(&id(1)));
    assert!(!id(1).same(&id(2)));
    let mut b = [1u8; 32];
    b[31] = 2;
    assert_ne!(id(1), ChangesetId::new(b));
}

#[test]
fn collect_public_appends_each_window() {
    let mut all = vec![];
    collect_public(&mut all, vec![entry(1, 0, &[]), entry(2, 1, &[1])], &vec![id(1)]);
    collect_public(&mut all, vec![entry(3, 2, &[1]), entry(4, 3, &[3])], &vec![id(4), id(3)]);
    assert_eq!(all, vec![entry(1, 0, &[]), entry(3, 2, &[1]), entry(4, 3, &[3])]);
}
