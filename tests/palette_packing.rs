use dh_anvil::palette::{bits_for_len, first_use_order, pack_data, unpack_data};

#[test]
fn pack_four_bit_entries() {
    assert_eq!(pack_data(vec![1, 2, 3], &4, 4), vec![0x321]);
}

#[test]
fn pack_spills_into_next_word() {
    // 17 palette entries need 5 bits: 12 entries per word, 4 high bits unused.
    let data: Vec<u16> = (0..13).map(|i| (i % 17) as u16).collect();
    let words = pack_data(data, &17, 4);
    assert_eq!(words.len(), 2);
    let mut expected: i64 = 0;
    for i in 0..12 {
        expected |= (i as i64) << (5 * i);
    }
    assert_eq!(words[0], expected);
    assert_eq!(words[1], 12);
    assert_eq!((words[0] as u64) >> 60, 0);
}

#[test]
fn pack_sixteen_bit_entries_fill_word() {
    let words = pack_data(vec![0xffff, 1, 2, 0x8000], &65536, 4);
    assert_eq!(words, vec![(0x8000_0002_0001_ffffu64) as i64]);
}

#[test]
fn unpack_gives_every_slot() {
    let out = unpack_data(vec![0x321], &4, 4);
    assert_eq!(out.len(), 16);
    assert_eq!(&out[..4], &[1, 2, 3, 0]);
    assert!(out[3..].iter().all(|v| *v == 0));
}

#[test]
fn unpack_inverts_pack() {
    let data: Vec<u16> = (0..4096).map(|i| ((i * 7) % 300) as u16).collect();
    let words = pack_data(data.clone(), &300, 4);
    assert_eq!(words.len(), (4096 + 6) / 7);
    let out = unpack_data(words, &300, 4);
    assert_eq!(&out[..4096], &data[..]);
}

#[test]
fn bit_widths() {
    assert_eq!(bits_for_len(1, 0), 0);
    assert_eq!(bits_for_len(2, 0), 1);
    assert_eq!(bits_for_len(3, 0), 2);
    assert_eq!(bits_for_len(16, 4), 4);
    assert_eq!(bits_for_len(17, 4), 5);
    assert_eq!(bits_for_len(2, 4), 4);
    assert_eq!(bits_for_len(65536, 4), 16);
}

#[test]
fn first_use_renumbering() {
    let (order, renumbered) = first_use_order(&vec![5, 2, 5, 0, 2], 6);
    assert_eq!(order, vec![5, 2, 0]);
    assert_eq!(renumbered, vec![0, 1, 0, 2, 1]);
}
