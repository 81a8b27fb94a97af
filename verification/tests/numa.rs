use rsmalloc::internals::env::{env_fits, get_env_usize};
use rsmalloc::internals::numa_parser::{
    clipped_cpu_range, format_decimal, format_node_cpulist_path, online_node_ids,
    parse_numa_topology, parse_number_list, parse_number_ranges, populate_cpu_ranges,
    single_node_topology, NumaCpuRange, NumberRange, INVALID_NODE,
};

fn parse(input: &[u8]) -> Option<Vec<usize>> {
    let mut list = parse_number_list(input);
    let mut numbers = Vec::new();
    while let Some(next) = list.next() {
        match next {
            Ok(number) => numbers.push(number),
            Err(_) => return None,
        }
    }
    Some(numbers)
}

fn parse_ranges(input: &[u8]) -> Option<Vec<(usize, usize)>> {
    let mut list = parse_number_ranges(input);
    let mut ranges = Vec::new();
    while let Some(next) = list.next() {
        match next {
            Ok(range) => ranges.push((range.start, range.end)),
            Err(_) => return None,
        }
    }
    Some(ranges)
}

#[test]
fn parses_comma_separated_ranges() {
    assert_eq!(parse(b"0-3,8,10-11\n"), Some(vec![0, 1, 2, 3, 8, 10, 11]));
}

#[test]
fn allows_whitespace_around_items_and_commas() {
    assert_eq!(parse(b" 0 - 2 , 4\t, 6\n"), Some(vec![0, 1, 2, 4, 6]));
}

#[test]
fn parses_ranges_without_expanding() {
    assert_eq!(
        parse_ranges(b"0-3,8,10-11\n"),
        Some(vec![(0, 3), (8, 8), (10, 11)])
    );
}

#[test]
fn clips_ranges_to_known_cpus() {
    assert_eq!(
        clipped_cpu_range(NumberRange { start: 2, end: 8 }, 4),
        Some(NumberRange { start: 2, end: 3 })
    );
    assert_eq!(clipped_cpu_range(NumberRange { start: 4, end: 8 }, 4), None);
    assert_eq!(clipped_cpu_range(NumberRange { start: 0, end: 0 }, 0), None);
}

#[test]
fn rejects_malformed_lists() {
    assert_eq!(parse(b"0-"), None);
    assert_eq!(parse(b"3-1"), None);
    assert_eq!(parse(b"0,foo"), None);
    assert_eq!(parse(b"0,"), None);
    assert_eq!(parse(b"0 1"), None);
}

#[test]
fn rejects_overflowing_numbers() {
    assert_eq!(parse(b"18446744073709551616"), None);
}

fn blank_ranges(count: usize) -> Vec<NumaCpuRange> {
    (0..count)
        .map(|node| NumaCpuRange {
            node_id: node as u16,
            start_cpu: usize::MAX,
            end_cpu: 0,
        })
        .collect()
}

#[test]
fn populates_cpu_ranges_by_node_id() {
    let mut cpu_to_node = vec![0, 0, 1, 1, 0, 2];
    let mut cpu_ranges = blank_ranges(3);

    populate_cpu_ranges(&mut cpu_to_node, &mut cpu_ranges);

    assert_eq!(cpu_ranges[0].start_cpu, 0);
    assert_eq!(cpu_ranges[0].end_cpu, 4);
    assert_eq!(cpu_ranges[1].start_cpu, 2);
    assert_eq!(cpu_ranges[1].end_cpu, 3);
    assert_eq!(cpu_ranges[2].start_cpu, 5);
    assert_eq!(cpu_ranges[2].end_cpu, 5);
}

#[test]
fn missing_and_invalid_cpus_fallback_to_node_zero() {
    let mut cpu_to_node = vec![INVALID_NODE, 2, INVALID_NODE, 99];
    let mut cpu_ranges = blank_ranges(4);

    populate_cpu_ranges(&mut cpu_to_node, &mut cpu_ranges);

    assert_eq!(cpu_to_node, [0, 2, 0, 0]);
    assert_eq!(cpu_ranges[0].start_cpu, 0);
    assert_eq!(cpu_ranges[0].end_cpu, 3);
    assert_eq!(cpu_ranges[1].start_cpu, 0);
    assert_eq!(cpu_ranges[1].end_cpu, 0);
    assert_eq!(cpu_ranges[2].start_cpu, 1);
    assert_eq!(cpu_ranges[2].end_cpu, 1);
    assert_eq!(cpu_ranges[3].start_cpu, 0);
    assert_eq!(cpu_ranges[3].end_cpu, 0);
}

#[test]
fn an_empty_list_has_no_numbers() {
    assert_eq!(parse(b""), Some(vec![]));
    assert_eq!(parse(b" \n"), Some(vec![]));
}

#[test]
fn online_nodes_are_listed_once_per_mention() {
    assert_eq!(online_node_ids(b"0-1\n"), Some(vec![0, 1]));
    assert_eq!(online_node_ids(b"junk"), None);
}

#[test]
fn topologies_follow_the_lists_of_the_nodes() {
    let online = b"0-1\n".to_vec();
    let lists = vec![Some(b"0,2\n".to_vec()), Some(b"1,3\n".to_vec())];
    let t = parse_numa_topology(4, Some(&online), &lists).unwrap();
    assert_eq!(t.cpu_to_node, vec![0, 1, 0, 1]);
    assert_eq!(t.node_ids, vec![0, 1]);
    assert_eq!(t.cpu_ranges.len(), 2);
    assert_eq!((t.cpu_ranges[0].start_cpu, t.cpu_ranges[0].end_cpu), (0, 2));
    assert_eq!((t.cpu_ranges[1].start_cpu, t.cpu_ranges[1].end_cpu), (1, 3));

    let single = single_node_topology(4);
    let none = parse_numa_topology(4, None, &Vec::new()).unwrap();
    assert_eq!(none.cpu_to_node, single.cpu_to_node);
    assert_eq!(none.node_ids, single.node_ids);
}

#[test]
fn paths_of_nodes_are_spelled_in_decimal() {
    assert_eq!(format_decimal(0), b"0".to_vec());
    assert_eq!(format_decimal(1907), b"1907".to_vec());
    assert_eq!(
        format_node_cpulist_path(12, 128),
        Some(b"/sys/devices/system/node/node12/cpulist".to_vec())
    );
    assert_eq!(format_node_cpulist_path(12, 38), None);
    assert!(format_node_cpulist_path(12, 39).is_some());
}

#[test]
fn the_first_entry_of_the_environment_counts() {
    let environ = vec![
        b"RS_OTHER=1".to_vec(),
        b"RS_SIZE=42x".to_vec(),
        b"RS_SIZE=7".to_vec(),
        b"RS_EMPTY=".to_vec(),
        b"RS_HUGE=99999999999999999999999".to_vec(),
    ];
    assert_eq!(get_env_usize(&environ, b"RS_SIZE"), Some(42));
    assert_eq!(get_env_usize(&environ, b"RS_EMPTY"), Some(0));
    assert_eq!(get_env_usize(&environ, b"RS_SIZ"), None);
    assert_eq!(get_env_usize(&environ, b"RS_MISSING"), None);
    assert!(env_fits(&environ, b"RS_SIZE"));
    assert!(env_fits(&environ, b"RS_MISSING"));
    assert!(!env_fits(&environ, b"RS_HUGE"));
}
