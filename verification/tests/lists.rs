use fst_writer::lists::SingleVecLists;

/// The straightforward lists that `SingleVecLists` has to behave like.
struct MultiVecLists {
    lists: Vec<Vec<u8>>,
}

impl MultiVecLists {
    fn new(num_lists: usize) -> Self {
        MultiVecLists {
            lists: vec![vec![]; num_lists],
        }
    }

    fn append(&mut self, list_id: usize, data: &[u8]) {
        self.lists[list_id].extend_from_slice(data);
    }

    fn extract_list(&self, list_id: usize) -> Vec<u8> {
        self.lists[list_id].clone()
    }
}

/// A small deterministic source of pseudo random numbers.
struct Lcg(u64);

impl Lcg {
    fn next(&mut self) -> u64 {
        self.0 = self
            .0
            .wrapping_mul(6364136223846793005)
            .wrapping_add(1442695040888963407);
        self.0 >> 33
    }
}

fn do_test_lists_var_len(data: &[(usize, Vec<u8>)]) {
    let num_lists = 16;
    let mut dut = SingleVecLists::new(num_lists);
    let mut reference = MultiVecLists::new(num_lists);
    for (list_id, data) in data.iter() {
        let list_id = *list_id % num_lists;
        dut.append(list_id, data, None);
        reference.append(list_id, data);
    }
    for list_id in 0..num_lists {
        assert_eq!(
            dut.extract_list(list_id, None),
            reference.extract_list(list_id)
        );
    }
}

fn do_test_lists_fixed_len(len: u8, list_data: &[Vec<u8>]) {
    let len = len as usize + 1;
    let num_lists = list_data.len();
    let mut dut = SingleVecLists::new(num_lists);
    let mut reference = MultiVecLists::new(num_lists);
    for (list_id, data) in list_data.iter().enumerate() {
        for entry in data.as_slice().chunks(len) {
            if entry.len() == len {
                dut.append(list_id, entry, Some(len));
                reference.append(list_id, entry);
            }
        }
    }
    for list_id in 0..num_lists {
        assert_eq!(
            dut.extract_list(list_id, Some(len)),
            reference.extract_list(list_id)
        );
    }
}

#[test]
fn unit_test_fixed_len_lists() {
    let mut dut = SingleVecLists::new(2);
    dut.append(0, &[0], Some(1));
    assert_eq!(dut.extract_list(0, Some(1)), [0]);
}

#[test]
fn test_lists_var_len() {
    let mut rng = Lcg(1);
    for round in 0..50 {
        let n = (rng.next() % 40) as usize;
        let data: Vec<(usize, Vec<u8>)> = (0..n)
            .map(|_| {
                let list = rng.next() as usize;
                // entries of up to 300 bytes, so that their lengths take one or two bytes
                let len = (rng.next() % 300) as usize;
                (list, (0..len).map(|_| rng.next() as u8).collect())
            })
            .collect();
        do_test_lists_var_len(&data);
        assert!(round < 50);
    }
}

#[test]
fn test_lists_fixed_len() {
    let mut rng = Lcg(7);
    for _ in 0..50 {
        let len = (rng.next() % 8) as u8;
        let lists = (rng.next() % 6) as usize;
        let data: Vec<Vec<u8>> = (0..lists)
            .map(|_| {
                let n = (rng.next() % 60) as usize;
                (0..n).map(|_| rng.next() as u8).collect()
            })
            .collect();
        do_test_lists_fixed_len(len, &data);
    }
}

#[test]
fn lists_empty_list_reads_back_empty() {
    let mut dut = SingleVecLists::new(3);
    dut.append(1, b"abc", None);
    assert_eq!(dut.extract_list(0, None), Vec::<u8>::new());
    assert_eq!(dut.extract_list(2, None), Vec::<u8>::new());
    assert_eq!(dut.extract_list(1, None), b"abc".to_vec());
}

#[test]
fn lists_empty_entries_are_kept() {
    let mut dut = SingleVecLists::new(1);
    dut.append(0, b"", None);
    dut.append(0, b"xy", None);
    dut.append(0, b"", None);
    assert_eq!(dut.extract_list(0, None), b"xy".to_vec());
    assert!(!dut.is_empty());
}

#[test]
fn lists_layout_and_size() {
    let mut dut = SingleVecLists::new(2);
    assert!(dut.is_empty());
    assert_eq!(dut.size(), 8);
    // a back pointer of four bytes, the length and the entry
    dut.append(0, b"ab", None);
    assert_eq!(dut.size(), 8 + 4 + 1 + 2);
    // a fixed size entry has no length
    dut.append(1, b"c", Some(1));
    assert_eq!(dut.size(), 8 + 7 + 4 + 1);
    dut.append(0, b"de", None);
    assert_eq!(dut.extract_list(0, None), b"abde".to_vec());
    assert_eq!(dut.extract_list(1, Some(1)), b"c".to_vec());
}

#[test]
fn lists_clear_empties_every_list() {
    let mut dut = SingleVecLists::new(2);
    dut.append(0, b"ab", None);
    dut.append(1, b"cd", None);
    dut.clear();
    assert!(dut.is_empty());
    assert_eq!(dut.size(), 8);
    assert_eq!(dut.extract_list(0, None), Vec::<u8>::new());
    assert_eq!(dut.extract_list(1, None), Vec::<u8>::new());
    dut.append(1, b"e", None);
    assert_eq!(dut.extract_list(1, None), b"e".to_vec());
}

/// Each append adds one record: four bytes of back pointer, the length unless the size is fixed,
/// and the entry; each list reads back as its entries in the order they were appended.
#[test]
fn lists_size_counts_one_record_per_append() {
    let mut dut = SingleVecLists::new(3);
    assert_eq!(dut.size(), 12);
    dut.append(0, b"abc", None);
    dut.append(1, b"zz", Some(2));
    dut.append(0, b"", None);
    let long = vec![7u8; 130];
    dut.append(2, &long, None);
    dut.append(0, b"d", None);
    // 8 + 6 + 5 + (4 + 2 + 130) + 6
    assert_eq!(dut.size(), 12 + 8 + 6 + 5 + 136 + 6);
    assert_eq!(dut.extract_list(0, None), b"abcd".to_vec());
    assert_eq!(dut.extract_list(1, Some(2)), b"zz".to_vec());
    assert_eq!(dut.extract_list(2, None), long);
    assert!(!dut.is_empty());
}
