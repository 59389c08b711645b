use quorum_will::errors::crypto_error::CryptoError;
use quorum_will::parts::find_insert_index;
use quorum_will::parts::reassemble_data;
use quorum_will::parts::rejoin_data;
use quorum_will::parts::remove_part;
use quorum_will::parts::split_data;

fn bytes(len: usize) -> Vec<u8> {
    (0..len).map(|i| (i * 7 + 3) as u8).collect()
}

#[test]
fn split_ten_bytes_into_three_parts() {
    let parts = split_data(vec![0, 1, 2, 3, 4, 5, 6, 7, 8, 9], 3);
    assert_eq!(parts, vec![vec![0, 1, 2, 3], vec![4, 5, 6], vec![7, 8, 9]]);
}

#[test]
fn split_seventeen_bytes_into_four_parts_has_one_long_part() {
    let parts = split_data(bytes(17), 4);
    let lens: Vec<usize> = parts.iter().map(|p| p.len()).collect();
    assert_eq!(lens, vec![5, 4, 4, 4]);
}

#[test]
fn split_into_more_parts_than_bytes() {
    let parts = split_data(vec![9, 8], 5);
    assert_eq!(parts, vec![vec![9], vec![8], vec![], vec![], vec![]]);
}

#[test]
fn split_of_nothing_gives_empty_parts() {
    let parts = split_data(Vec::new(), 3);
    assert_eq!(parts, vec![Vec::<u8>::new(), Vec::new(), Vec::new()]);
}

#[test]
fn split_into_one_part_is_the_buffer() {
    assert_eq!(split_data(bytes(6), 1), vec![bytes(6)]);
}

#[test]
fn reassemble_joins_in_order() {
    let joined = reassemble_data(vec![vec![1, 2], vec![], vec![3], vec![4, 5, 6]]);
    assert_eq!(joined, vec![1, 2, 3, 4, 5, 6]);
}

#[test]
fn reassemble_of_no_parts_is_empty() {
    assert_eq!(reassemble_data(Vec::new()), Vec::<u8>::new());
}

#[test]
fn reassemble_undoes_split_for_all_lengths_and_counts() {
    for len in 0..40usize {
        for n in 1..12usize {
            let buf = bytes(len);
            let parts = split_data(buf.clone(), n);
            assert_eq!(parts.len(), n);
            let r = len % n;
            for (i, part) in parts.iter().enumerate() {
                let expected = len / n + if i < r { 1 } else { 0 };
                assert_eq!(part.len(), expected);
            }
            assert_eq!(reassemble_data(parts), buf);
        }
    }
}

#[test]
fn remove_part_drops_the_named_part() {
    let buf: Vec<u8> = vec![0, 1, 2, 3, 4, 5, 6, 7, 8, 9];
    assert_eq!(remove_part(&buf, 3, 0).unwrap(), vec![4, 5, 6, 7, 8, 9]);
    assert_eq!(remove_part(&buf, 3, 1).unwrap(), vec![0, 1, 2, 3, 7, 8, 9]);
    assert_eq!(remove_part(&buf, 3, 2).unwrap(), vec![0, 1, 2, 3, 4, 5, 6]);
}

#[test]
fn remove_part_is_shorter_by_the_part() {
    for len in 0..30usize {
        for n in 1..8usize {
            let buf = bytes(len);
            let parts = split_data(buf.clone(), n);
            for i in 0..n {
                let rest = remove_part(&buf, n, i).unwrap();
                assert_eq!(rest.len(), len - parts[i].len());
            }
        }
    }
}

#[test]
fn remove_part_of_one_part_leaves_nothing() {
    assert_eq!(remove_part(&bytes(9), 1, 0).unwrap(), Vec::<u8>::new());
}

#[test]
fn remove_part_out_of_range() {
    let buf = bytes(10);
    assert_eq!(remove_part(&buf, 3, 3), Err(CryptoError::OutOfRange));
    assert_eq!(remove_part(&buf, 3, 7), Err(CryptoError::OutOfRange));
    assert_eq!(remove_part(&buf, 0, 0), Err(CryptoError::OutOfRange));
}

#[test]
fn insert_index_counts_smaller_owners() {
    assert_eq!(find_insert_index(&vec![1, 2, 4], 0), 0);
    assert_eq!(find_insert_index(&vec![1, 2, 4], 3), 2);
    assert_eq!(find_insert_index(&vec![1, 2, 4], 5), 3);
    assert_eq!(find_insert_index(&vec![1, 2, 4], 2), 1);
    assert_eq!(find_insert_index(&Vec::new(), 9), 0);
}

#[test]
fn rejoin_restores_every_residue() {
    for n in 2..9usize {
        for len in 0..(4 * n + 3) {
            let buf = bytes(len);
            let without_first = remove_part(&buf, n, 0).unwrap();
            let without_second = remove_part(&buf, n, 1).unwrap();
            assert_eq!(rejoin_data(without_first, without_second, n - 1), buf);
        }
    }
}

#[test]
fn rejoin_takes_the_first_part_of_the_second() {
    let joined = rejoin_data(vec![10, 11, 12, 13], vec![1, 2, 3, 4, 5], 2);
    assert_eq!(joined, vec![1, 2, 3, 10, 11, 12, 13]);
}

#[test]
fn joining_the_two_leftovers_naively_is_wrong() {
    let buf = bytes(17);
    let without_first = remove_part(&buf, 4, 0).unwrap();
    let without_second = remove_part(&buf, 4, 1).unwrap();
    let mut naive = without_second.clone();
    naive.extend_from_slice(&without_first);
    assert_ne!(naive, buf);
}
