use electrolyzer_modbus::planner::{plan_read_ranges, sort_registers, ReadRange};
use electrolyzer_modbus::register::{DataType, Register};

fn reg(name: &str, addr: u16, len: u16) -> Register {
    Register { name: name.to_string(), addr, len, data_type: DataType::UInt16 }
}

fn member_names(r: &ReadRange) -> Vec<String> {
    r.members.iter().map(|m| m.register.name.clone()).collect()
}

#[test]
fn touching_registers_coalesce() {
    let ranges = plan_read_ranges(vec![reg("a", 10, 2), reg("b", 12, 3)]);
    assert_eq!(ranges.len(), 1);
    assert_eq!(ranges[0].start_address, 10);
    assert_eq!(ranges[0].word_count, 5);
    assert_eq!(ranges[0].members[0].offset, 0);
    assert_eq!(ranges[0].members[1].offset, 2);
}

#[test]
fn gap_forces_two_ranges() {
    let ranges = plan_read_ranges(vec![reg("a", 10, 2), reg("b", 15, 3)]);
    assert_eq!(ranges.len(), 2);
    assert_eq!((ranges[0].start_address, ranges[0].word_count), (10, 2));
    assert_eq!((ranges[1].start_address, ranges[1].word_count), (15, 3));
}

#[test]
fn three_contiguous_registers_make_one_range() {
    let ranges = plan_read_ranges(vec![reg("a", 0, 1), reg("b", 1, 2), reg("c", 3, 4)]);
    assert_eq!(ranges.len(), 1);
    assert_eq!(ranges[0].start_address, 0);
    assert_eq!(ranges[0].word_count, 7);
    assert_eq!(member_names(&ranges[0]), vec!["a", "b", "c"]);
}

#[test]
fn long_run_splits_where_the_limit_is_passed() {
    let regs: Vec<Register> = (0..100u16).map(|i| reg(&format!("r{i}"), 2 * i, 2)).collect();
    let ranges = plan_read_ranges(regs);
    assert_eq!(ranges.len(), 2);
    assert_eq!(ranges[0].start_address, 0);
    assert_eq!(ranges[0].members.len(), 63);
    assert_eq!(ranges[0].word_count, 126);
    assert_eq!(ranges[1].start_address, 126);
    assert_eq!(ranges[1].members.len(), 37);
    assert_eq!(ranges[1].word_count, 74);
}

#[test]
fn registers_within_one_window_stay_under_the_limit() {
    let regs: Vec<Register> = (0..25u16).map(|i| reg(&format!("r{i}"), 1000 + 5 * i, 5)).collect();
    let ranges = plan_read_ranges(regs);
    assert_eq!(ranges.len(), 1);
    assert!(ranges.iter().all(|r| r.word_count <= 125));
    assert_eq!(ranges[0].word_count, 125);
}

#[test]
fn empty_input_gives_no_range() {
    assert!(plan_read_ranges(Vec::new()).is_empty());
}

#[test]
fn oversized_register_is_not_split() {
    let ranges = plan_read_ranges(vec![reg("big", 0, 200)]);
    assert_eq!(ranges.len(), 1);
    assert_eq!(ranges[0].word_count, 200);
}

#[test]
fn every_register_lands_in_exactly_one_range() {
    let regs = vec![
        reg("e", 40, 2),
        reg("a", 0, 2),
        reg("c", 4, 1),
        reg("b", 2, 2),
        reg("d", 30, 8),
        reg("f", 42, 1),
    ];
    let ranges = plan_read_ranges(regs);
    let mut names: Vec<String> = ranges.iter().flat_map(member_names).collect();
    assert_eq!(names, vec!["a", "b", "c", "d", "e", "f"]);
    names.sort();
    names.dedup();
    assert_eq!(names.len(), 6);
    assert_eq!(ranges.len(), 3);
    assert_eq!((ranges[1].start_address, ranges[1].word_count), (30, 8));
    assert_eq!((ranges[2].start_address, ranges[2].word_count), (40, 3));
}

#[test]
fn equal_addresses_keep_input_order() {
    let sorted = sort_registers(vec![reg("x", 5, 1), reg("y", 1, 1), reg("z", 5, 1)]);
    let names: Vec<&str> = sorted.iter().map(|r| r.name.as_str()).collect();
    assert_eq!(names, vec!["y", "x", "z"]);
    let ranges = plan_read_ranges(vec![reg("x", 5, 1), reg("z", 5, 1)]);
    assert_eq!(ranges.len(), 2);
    assert_eq!(member_names(&ranges[0]), vec!["x"]);
    assert_eq!(member_names(&ranges[1]), vec!["z"]);
}
