use hadris::iso::gather::{device_numbers, sort_by_name, timestamp_of};
use hadris::iso::tree::InputEntry;

#[test]
fn device_numbers_are_taken_apart() {
    for device in [0u64, 0x0801, 0x1234_5678_9ABC_DEF0, u64::MAX, 0xFFF0_0FFF_FF0F_FF00] {
        let major = ((device >> 8) & 0xfff) | ((device >> 32) & 0xfffff000);
        let minor = (device & 0xff) | ((device >> 12) & 0xffffff00);
        assert_eq!(device_numbers(device), (major as u32, minor as u32));
    }
    assert_eq!(device_numbers(0x0801), (8, 1));
}

#[test]
fn seconds_fit_or_not() {
    assert_eq!(timestamp_of(5), Some(5));
    assert_eq!(timestamp_of(i64::MAX as u64), Some(i64::MAX));
    assert_eq!(timestamp_of(i64::MAX as u64 + 1), None);
}

#[test]
fn entries_are_ordered_without_regard_to_case() {
    let names = ["b", "A", "a", "Ä", "_", "B.txt"];
    let entries = names.iter().map(|n| InputEntry::file(n, Vec::new())).collect();
    let sorted: Vec<String> = sort_by_name(entries).iter().map(|e| e.name.to_string()).collect();
    assert_eq!(sorted, ["_", "A", "a", "b", "B.txt", "Ä"]);
}
