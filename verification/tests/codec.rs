use leaderboard::codec::decode_entries;
use leaderboard::codec::encode_entries;
use leaderboard::codec::read_entry;
use leaderboard::codec::write_entry;
use leaderboard::codec::SerializationError;
use leaderboard::entry::Entry;
use leaderboard::tree::Tree;
use leaderboard::tree_codec::decode_tree;
use leaderboard::tree_codec::encode_tree;
use leaderboard::wire::read_i64;
use leaderboard::wire::read_u64;
use leaderboard::wire::varint_width;
use leaderboard::wire::write_i64;
use leaderboard::wire::write_u64;
use leaderboard::wire::zigzag_of;

fn bytes_of_u64(v: u64) -> Vec<u8> {
    let mut out = Vec::new();
    write_u64(&mut out, v);
    out
}

fn bytes_of_i64(v: i64) -> Vec<u8> {
    let mut out = Vec::new();
    write_i64(&mut out, v);
    out
}

#[test]
fn unsigned_numbers_have_the_documented_bytes() {
    assert_eq!(bytes_of_u64(0), vec![0]);
    assert_eq!(bytes_of_u64(250), vec![250]);
    assert_eq!(bytes_of_u64(251), vec![251, 251, 0]);
    assert_eq!(bytes_of_u64(300), vec![251, 44, 1]);
    assert_eq!(bytes_of_u64(65535), vec![251, 255, 255]);
    assert_eq!(bytes_of_u64(65536), vec![252, 0, 0, 1, 0]);
    assert_eq!(bytes_of_u64(4294967295), vec![252, 255, 255, 255, 255]);
    assert_eq!(bytes_of_u64(4294967296), vec![253, 0, 0, 0, 0, 1, 0, 0, 0]);
    assert_eq!(bytes_of_u64(u64::MAX), vec![253, 255, 255, 255, 255, 255, 255, 255, 255]);
    // appending keeps what is there
    let mut out = vec![9u8];
    write_u64(&mut out, 300);
    assert_eq!(out, vec![9, 251, 44, 1]);
}

#[test]
fn signed_numbers_go_by_their_zigzag_image() {
    assert_eq!(zigzag_of(0), 0);
    assert_eq!(zigzag_of(-1), 1);
    assert_eq!(zigzag_of(1), 2);
    assert_eq!(zigzag_of(-2), 3);
    assert_eq!(zigzag_of(i64::MAX), u64::MAX - 1);
    assert_eq!(zigzag_of(i64::MIN), u64::MAX);
    assert_eq!(bytes_of_i64(0), vec![0]);
    assert_eq!(bytes_of_i64(-1), vec![1]);
    assert_eq!(bytes_of_i64(125), vec![250]);
    assert_eq!(bytes_of_i64(-126), vec![251, 251, 0]);
    assert_eq!(bytes_of_i64(i64::MIN), vec![253, 255, 255, 255, 255, 255, 255, 255, 255]);
    for v in [0i64, 1, -1, 125, -126, 126, 70000, -70000, i64::MAX, i64::MIN] {
        let bytes = bytes_of_i64(v);
        assert_eq!(bytes, bincode::encode_to_vec(v, bincode::config::standard()).unwrap());
        assert_eq!(read_i64(&bytes, 0), Some((v, bytes.len())));
    }
}

#[test]
fn numbers_read_back_strictly() {
    for v in [0u64, 250, 251, 65535, 65536, 4294967295, 4294967296, u64::MAX] {
        let bytes = bytes_of_u64(v);
        assert_eq!(bytes.len(), varint_width(v));
        assert_eq!(bytes, bincode::encode_to_vec(v, bincode::config::standard()).unwrap());
        assert_eq!(read_u64(&bytes, 0), Some((v, bytes.len())));
        let mut padded = vec![7u8, 7];
        padded.extend_from_slice(&bytes);
        padded.push(1);
        assert_eq!(read_u64(&padded, 2), Some((v, 2 + bytes.len())));
    }
    // nothing to read
    assert_eq!(read_u64(&[], 0), None);
    assert_eq!(read_u64(&[5], 1), None);
    // cut short
    assert_eq!(read_u64(&[251, 1], 0), None);
    assert_eq!(read_u64(&[252, 1, 2, 3], 0), None);
    assert_eq!(read_u64(&[253, 1, 2, 3, 4, 5, 6, 7], 0), None);
    // markers that stand for wider numbers or for nothing
    assert_eq!(read_u64(&[254, 0, 0, 0, 0, 0, 0, 0, 0, 0, 0, 0, 0, 0, 0, 0, 0], 0), None);
    assert_eq!(read_u64(&[255, 0, 0, 0, 0, 0, 0, 0, 0], 0), None);
    // written wider than needed
    assert_eq!(read_u64(&[251, 5, 0], 0), None);
    assert_eq!(read_u64(&[252, 0, 1, 0, 0], 0), None);
    assert_eq!(read_u64(&[253, 0, 0, 0, 1, 0, 0, 0, 0], 0), None);
    assert_eq!(read_i64(&[251, 5, 0], 0), None);
}

#[test]
fn entries_have_key_timestamp_points() {
    let e = Entry::new(1, 5, 100);
    let mut out = Vec::new();
    write_entry(&mut out, &e);
    assert_eq!(out, vec![2, 100, 10]);
    assert_eq!(read_entry(&out, 0), Some((e, 3)));
    assert_eq!(read_entry(&out, 1), None);
    let wide = Entry::new(-70000, i64::MIN, u64::MAX);
    let mut out = Vec::new();
    write_entry(&mut out, &wide);
    assert_eq!(out.len(), 5 + 9 + 9);
    assert_eq!(read_entry(&out, 0), Some((wide, 23)));
}

#[test]
fn saved_boards_round_trip() {
    assert_eq!(encode_entries(&vec![]), vec![0]);
    assert_eq!(decode_entries(&[0]), Ok(vec![]));
    let entries = vec![Entry::new(1, 5, 100), Entry::new(-3, -7, 70000), Entry::new(2, 5, 200)];
    let bytes = encode_entries(&entries);
    assert_eq!(bytes, vec![3, 2, 100, 10, 5, 252, 112, 17, 1, 0, 13, 4, 200, 10]);
    assert_eq!(decode_entries(&bytes), Ok(entries.clone()));
    assert_eq!(encode_entries(&decode_entries(&bytes).unwrap()), bytes);
}

#[test]
fn malformed_boards_are_turned_down() {
    let bytes = encode_entries(&vec![Entry::new(1, 5, 100), Entry::new(2, 5, 200)]);
    assert_eq!(decode_entries(&[]), Err(SerializationError::Malformed));
    // one entry short
    assert_eq!(decode_entries(&bytes[..bytes.len() - 1]), Err(SerializationError::Malformed));
    // one byte too many
    let mut long = bytes.clone();
    long.push(0);
    assert_eq!(decode_entries(&long), Err(SerializationError::Malformed));
    // a count that the entries do not bear out
    let mut miscounted = bytes.clone();
    miscounted[0] = 3;
    assert_eq!(decode_entries(&miscounted), Err(SerializationError::Malformed));
    // a number written wider than needed
    assert_eq!(decode_entries(&[251, 0, 0]), Err(SerializationError::Malformed));
}

#[test]
fn trees_round_trip_with_their_shape() {
    let empty: Tree<Entry> = Tree::new();
    assert_eq!(encode_tree(&empty), vec![0]);
    assert!(decode_tree(&[0]).unwrap().is_empty());

    let mut tree: Tree<Entry> = Tree::new();
    tree.insert(Entry::new(2, 20, 1));
    tree.insert(Entry::new(1, 10, 1));
    tree.insert(Entry::new(3, 30, 1));
    let bytes = encode_tree(&tree);
    // the top, then its left subtree, then its right subtree
    assert_eq!(bytes, vec![1, 4, 1, 40, 1, 2, 1, 20, 0, 0, 1, 6, 1, 60, 0, 0]);
    let back = decode_tree(&bytes).unwrap();
    assert!(back.validate());
    assert_eq!(back.len(), 3);
    assert_eq!(back.height(), 2);
    assert_eq!(back.at_index(0), Some(&Entry::new(3, 30, 1)));
    assert_eq!(back.at_index(2), Some(&Entry::new(1, 10, 1)));
    assert_eq!(encode_tree(&back), bytes);

    let mut big: Tree<Entry> = Tree::new();
    for k in 0..500i64 {
        big.insert(Entry::new(k, (k * 37) % 101, k as u64));
    }
    let bytes = encode_tree(&big);
    let back = decode_tree(&bytes).unwrap();
    assert_eq!(back.len(), 500);
    assert_eq!(back.height(), big.height());
    assert_eq!(encode_tree(&back), bytes);
}

#[test]
fn malformed_trees_are_turned_down() {
    assert!(decode_tree(&[]).is_err());
    assert!(decode_tree(&[2]).is_err());
    assert!(decode_tree(&[0, 0]).is_err());
    assert!(decode_tree(&[1, 4, 1, 40, 0]).is_err());
    // out of order: the left child outranks the top
    assert!(decode_tree(&[1, 4, 1, 40, 1, 6, 1, 60, 0, 0, 0]).is_err());
    // out of balance: a chain of three
    assert!(decode_tree(&[1, 6, 1, 60, 1, 4, 1, 40, 1, 2, 1, 20, 0, 0, 0, 0]).is_err());
    // in order and in balance
    assert!(decode_tree(&[1, 4, 1, 40, 1, 2, 1, 20, 0, 0, 0]).is_ok());
}
