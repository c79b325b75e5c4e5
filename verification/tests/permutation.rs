use workqueue::permutation::{seeded_permutation, PermTable, PSIZE};

fn checksum(table: &[i16]) -> u64 {
    let mut sum = 0u64;
    for (i, &v) in table.iter().enumerate() {
        sum = (sum + i as u64 * v as u64) % 1_000_000_007;
    }
    sum
}

#[test]
fn table_for_seed_zero() {
    let table = seeded_permutation(0);
    assert_eq!(table.len(), PSIZE);
    assert_eq!(&table[..8], &[1952, 523, 1730, 7, 551, 2003, 1386, 27]);
    assert_eq!(&table[1020..1024], &[1986, 700, 217, 1476]);
    assert_eq!(&table[2044..], &[1131, 1654, 637, 366]);
    assert_eq!(checksum(&table), 226091376);
}

#[test]
fn tables_for_other_seeds() {
    let one = seeded_permutation(1);
    assert_eq!(&one[..8], &[548, 96, 232, 150, 84, 160, 42, 388]);
    assert_eq!(&one[2044..], &[1830, 1247, 893, 155]);
    assert_eq!(checksum(&one), 245516650);
    let minus_one = seeded_permutation(-1);
    assert_eq!(&minus_one[..8], &[272, 288, 1716, 1320, 308, 1524, 222, 674]);
    assert_eq!(checksum(&minus_one), 246272686);
    let answer = seeded_permutation(42);
    assert_eq!(&answer[1020..1024], &[1661, 1077, 711, 1407]);
    assert_eq!(checksum(&answer), 219879967);
}

#[test]
fn seeds_at_the_limits_wrap() {
    let max = seeded_permutation(i64::MAX);
    assert_eq!(&max[..8], &[440, 1372, 588, 1100, 42, 82, 732, 1802]);
    assert_eq!(checksum(&max), 229792457);
    let min = seeded_permutation(i64::MIN);
    assert_eq!(&min[..8], &[1968, 7, 321, 44, 355, 1131, 2003, 279]);
    assert_eq!(checksum(&min), 225691233);
    let near = seeded_permutation(i64::MAX - 30);
    assert_eq!(&near[2044..], &[1099, 2019, 1652, 763]);
    assert_eq!(checksum(&near), 207763771);
}

#[test]
fn every_table_holds_each_number_once() {
    for seed in [0i64, 1, -1, 7, 123_456_789, i64::MAX, i64::MIN, -6364136223846793005] {
        let table = seeded_permutation(seed);
        assert_eq!(table.len(), PSIZE);
        let mut seen = vec![false; PSIZE];
        for &v in &table {
            assert!(0 <= v && (v as usize) < PSIZE);
            assert!(!seen[v as usize]);
            seen[v as usize] = true;
        }
        assert!(seen.iter().all(|&s| s));
    }
}

#[test]
fn same_seed_same_table() {
    assert_eq!(seeded_permutation(99), seeded_permutation(99));
    assert_ne!(seeded_permutation(99), seeded_permutation(100));
}

#[test]
fn table_type_holds_the_table_of_its_seed() {
    let table = PermTable::new(42);
    assert_eq!(table.entries(), &seeded_permutation(42));
    assert_eq!(table.clone().entries(), table.entries());
}

#[test]
fn places_of_lattice_points() {
    let table = PermTable::new(0);
    let perm = seeded_permutation(0);
    // entries 0, 1, 2 of the table for seed 0 are 1952, 523, 1730
    assert_eq!(table.index2(0, 0), 1952);
    assert_eq!(table.index2(1, 0), 523);
    assert_eq!(table.index2(0, 5), 1952 ^ 5);
    assert_eq!(table.index2(2, 2047), 1730 ^ 2047);
    assert_eq!(table.index2(2048, 0), 1952);
    assert_eq!(table.index2(2049, 2048 + 7), 523 ^ 7);
    assert_eq!(table.index2(-1, -1), perm[2047] as usize ^ 2047);
    assert_eq!(table.index2(i32::MIN, i32::MAX), 1952 ^ 2047);
    assert_eq!(table.index3(0, 0, 0), perm[1952] as usize);
    assert_eq!(table.index3(1, 3, 9), perm[523 ^ 3] as usize ^ 9);
    assert_eq!(
        table.index4(1, 3, 9, -2),
        perm[perm[523 ^ 3] as usize ^ 9] as usize ^ 2046
    );
}

#[test]
fn places_stay_inside_the_table() {
    let table = PermTable::new(-77);
    for x in [i32::MIN, -2049, -1, 0, 1, 2047, 2048, i32::MAX] {
        for y in [i32::MIN, -5, 0, 3, 4095, i32::MAX] {
            assert!(table.index2(x, y) < PSIZE);
            assert!(table.index3(x, y, x) < PSIZE);
            assert!(table.index4(y, x, y, x) < PSIZE);
        }
    }
}
