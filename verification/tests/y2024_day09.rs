use mdraoc::y2024::day09::{gap_ranges, part1, part2, value_ranges, Disk};

const TEST_TEXT: &str = "2333133121414131402";
const TEST_TEXT2: &str = "12345";

#[test]
fn day09_test_parse() {
    let disk = Disk::from_text(TEST_TEXT2);
    let expected: Vec<Option<u64>> = vec![
        Some(0),
        None,
        None,
        Some(1),
        Some(1),
        Some(1),
        None,
        None,
        None,
        None,
        Some(2),
        Some(2),
        Some(2),
        Some(2),
        Some(2),
    ];
    assert_eq!(disk.data(), &expected);
}

#[test]
fn test_compress() {
    let disk = Disk::from_text(TEST_TEXT2);
    assert_eq!(disk.compress().to_brief(), "022111222......");

    let disk = Disk::from_text(TEST_TEXT).compress();
    assert_eq!(disk.to_brief(), "0099811188827773336446555566..............");
}

#[test]
fn test_ranges() {
    let disk = Disk::from_text(TEST_TEXT2);
    let expected = vec![0..1, 3..6, 10..15];
    assert_eq!(value_ranges(disk.data()), expected);
}

#[test]
fn test_gap_ranges() {
    let disk = Disk::from_text(TEST_TEXT2);
    let expected = vec![1..3, 6..10];
    assert_eq!(gap_ranges(disk.data()), expected);
}

#[test]
fn test_compress_defrag() {
    let disk = Disk::from_text(TEST_TEXT).compress_defrag();
    assert_eq!(disk.to_brief(), "00992111777.44.333....5555.6666.....8888..");
}

#[test]
fn day09_test_part1() {
    let disk = Disk::from_text(TEST_TEXT).compress();
    assert_eq!(disk.checksum(), 1928);
}

#[test]
fn day09_test_part2() {
    let disk = Disk::from_text(TEST_TEXT).compress_defrag();
    assert_eq!(disk.checksum(), 2858);
}

#[test]
fn test_parts_from_disk() {
    let disk = Disk::from_text(TEST_TEXT);
    assert_eq!(part1(&disk), 1928);
    assert_eq!(part2(&disk), 2858);
}

#[test]
fn test_gap_ranges_leading_free() {
    let data = vec![None, None, Some(0), None, Some(1), None];
    assert_eq!(gap_ranges(&data), vec![0..2, 3..4]);
}

#[test]
fn day09_compress_leaves_no_gaps() {
    for text in [TEST_TEXT, TEST_TEXT2, "1", "90909", "10101"] {
        let disk = Disk::from_text(text);
        let packed = disk.compress();
        let data = packed.data();
        assert_eq!(data.len(), disk.data().len());
        let first_free = data.iter().position(|x| x.is_none()).unwrap_or(data.len());
        assert!(data[first_free..].iter().all(|x| x.is_none()), "{text}");
    }
}
