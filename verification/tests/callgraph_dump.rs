use bitcode_pipeline::callgraph::{parse_node, process_graph, split_sections, GraphNode};

fn section(lines: &[&str]) -> Vec<String> {
    lines.iter().map(|l| String::from(*l)).collect()
}

fn node(lines: &[&str]) -> Option<(String, usize, usize, Vec<String>)> {
    parse_node(&section(lines)).map(parts)
}

fn parts(n: GraphNode) -> (String, usize, usize, Vec<String>) {
    (n.name, n.uses, n.address, n.call_list)
}

fn strs(list: &[&str]) -> Vec<String> {
    list.iter().map(|s| String::from(*s)).collect()
}

/// What the standard's own functions make of a first line.
fn expected_head(head: &str) -> Option<(String, usize, usize)> {
    let mut flag = 0;
    let mut uses = 0;
    let mut address = 0;
    let mut name = String::new();
    for w in head.split(' ') {
        let w = w.trim();
        if w.is_empty() {
            continue;
        }
        if flag == 1 {
            let content: Vec<&str> = w.trim_start_matches('\'').trim_end_matches('>').split("'<<").collect();
            address = usize::from_str_radix(content.get(1)?.trim_start_matches("0x"), 16).ok()?;
            name = String::from(content[0]);
        }
        if flag == 2 {
            uses = w.trim_start_matches("#uses=").parse().ok()?;
            break;
        }
        if flag != 0 || w.ends_with(':') {
            flag += 1;
        }
    }
    Some((name, uses, address))
}

fn expected_calls(lines: &[&str]) -> Vec<String> {
    lines
        .iter()
        .filter(|x| !x.contains("external node"))
        .map(|x| x.split(' ').last().unwrap())
        .map(|x| String::from(x.trim_matches('\'')))
        .collect()
}

#[test]
fn a_section_gives_name_address_uses_and_calls() {
    let n = node(&[
        "Call graph node for function: 'main'<<0x55d0c8>>  #uses=1",
        "CS<0x55d0d0> calls function 'printf'",
        "CS<0x0> calls external node",
        "CS<0x55d0e0> calls function 'helper'",
    ]);
    assert_eq!(n, Some((String::from("main"), 1, 0x55d0c8, strs(&["printf", "helper"]))));
}

#[test]
fn a_section_without_calls() {
    let n = node(&["Call graph node for function: 'leaf'<<0x10>>  #uses=3"]);
    assert_eq!(n, Some((String::from("leaf"), 3, 16, Vec::new())));
}

#[test]
fn a_section_without_a_line_gives_nothing() {
    assert_eq!(node(&[]), None);
}

#[test]
fn a_first_line_without_a_label_leaves_everything_empty() {
    assert_eq!(node(&["no label here", "calls 'f'"]), Some((String::new(), 0, 0, strs(&["f"]))));
    assert_eq!(node(&[""]), Some((String::new(), 0, 0, Vec::new())));
    assert_eq!(node(&["label:"]), Some((String::new(), 0, 0, Vec::new())));
}

#[test]
fn a_first_line_without_the_count_leaves_it_zero() {
    assert_eq!(node(&["function: 'f'<<0x2a>>"]), Some((String::from("f"), 0, 42, Vec::new())));
}

#[test]
fn a_name_word_that_cannot_be_read_gives_nothing() {
    assert_eq!(node(&["function: main #uses=1"]), None);
    assert_eq!(node(&["function: 'main'<<0xZZ>> #uses=1"]), None);
    assert_eq!(node(&["function: 'main'<<>> #uses=1"]), None);
    assert_eq!(node(&["function: 'main'<<0x>> #uses=1"]), None);
    assert_eq!(node(&["function: 'main'<<0x1ffffffffffffffffffff>> #uses=1"]), None);
}

#[test]
fn a_count_that_cannot_be_read_gives_nothing() {
    assert_eq!(node(&["function: 'main'<<0x1>> #uses=x"]), None);
    assert_eq!(node(&["function: 'main'<<0x1>> #uses="]), None);
    assert_eq!(node(&["function: 'main'<<0x1>> uses"]), None);
    assert_eq!(node(&["function: 'main'<<0x1>> #uses=-1"]), None);
}

#[test]
fn words_after_the_count_are_not_read() {
    let n = node(&["function: 'f'<<0x1>> #uses=2 junk: 'g'<<zz>> more"]);
    assert_eq!(n, Some((String::from("f"), 2, 1, Vec::new())));
}

#[test]
fn the_first_label_counts() {
    let n = node(&["a: 'f'<<0x1>> 7 b: 'g'<<0x2>> 9"]);
    assert_eq!(n, Some((String::from("f"), 7, 1, Vec::new())));
}

#[test]
fn what_follows_the_address_mark_a_second_time_is_left_out() {
    let n = node(&["f: 'a'<<0x10'<<0x20>> 1"]);
    assert_eq!(n, Some((String::from("a"), 1, 16, Vec::new())));
}

#[test]
fn the_null_function_has_an_empty_name() {
    let n = node(&["Call graph node <<null function>><<0x55aa>>  #uses=0"]);
    assert_eq!(n, Some((String::new(), 0, 0, Vec::new())));
}

#[test]
fn calls_take_the_last_word_without_its_quotes() {
    let n = node(&["x", "CS<0x1> calls function 'a b'", "'c'", "trailing space ", "''", "calls external node 'q'"]);
    assert_eq!(n, Some((String::new(), 0, 0, strs(&["b", "c", "", ""]))));
}

#[test]
fn first_lines_are_read_as_the_standard_reads_them() {
    let heads = [
        "Call graph node for function: 'main'<<0x55d0c8>>  #uses=1",
        "Call graph node for function: 'a'<<0x0>>  #uses=0",
        "  function:   ''q''<<0x0x12>>>>   #uses=#uses=5  ",
        "function: x'<<ff",
        "function: x'<<ff'<<",
        "function: x'<<+ff #uses=+3",
        "function: '<<1 2",
        "function: \t'f'<<0x1>>\t #uses=1",
        "function:\t'f'<<0x1>> #uses=1",
        "f: g: 'h'<<0x3>> 4",
        "f: 'h'<<0x3>> 4:",
        ": 'h'<<0x3>> 4",
        "a b c",
        "",
        "  ",
        "function: 'f'<<0xg>> #uses=1",
        "function: 'f'<<0x1>> #uses=1.5",
        "function: 'f' #uses=1",
        "function: 'é'<<0xAbC>> #uses=18446744073709551615",
        "function: 'é'<<0xAbC>> #uses=18446744073709551616",
    ];
    for head in heads {
        let expected = expected_head(head).map(|(name, uses, address)| (name, uses, address, Vec::new()));
        assert_eq!(node(&[head]), expected, "{:?}", head);
    }
}

#[test]
fn calls_are_read_as_the_standard_reads_them() {
    let lines = [
        "CS<0x55d0d0> calls function 'printf'",
        "CS<0x0> calls external node",
        "external node",
        "an external  node",
        "'x'",
        "x'",
        "",
        " ",
        "a 'b' ",
        "a\t'b'",
        "a ''b''",
    ];
    let mut section: Vec<&str> = vec!["head"];
    section.extend(lines);
    assert_eq!(node(&section), Some((String::new(), 0, 0, expected_calls(&lines))));
}

const DUMP: &str = "\
Call graph node <<null function>><<0x5581>>  #uses=0
  CS<0x0> calls function 'main'
  CS<0x0> calls function 'helper'

Call graph node for function: 'main'<<0x5590>>  #uses=1
  CS<0x55a0> calls function 'helper'
  CS<0x55a8> calls external node

Call graph node for function: 'helper'<<0x5588>>  #uses=2

Call graph node for function: 'main'<<0x5590>>  #uses=9
  CS<0x55a0> calls function 'other'
";

#[test]
fn a_dump_is_split_into_its_sections() {
    let sections = split_sections(DUMP);
    assert_eq!(sections.len(), 4);
    assert_eq!(
        sections[0],
        strs(&[
            "Call graph node <<null function>><<0x5581>>  #uses=0",
            "CS<0x0> calls function 'main'",
            "CS<0x0> calls function 'helper'",
        ])
    );
    assert_eq!(
        sections[1],
        strs(&[
            "Call graph node for function: 'main'<<0x5590>>  #uses=1",
            "CS<0x55a0> calls function 'helper'",
            "CS<0x55a8> calls external node",
        ])
    );
    assert_eq!(sections[2], strs(&["Call graph node for function: 'helper'<<0x5588>>  #uses=2"]));
    assert_eq!(sections[3].len(), 2);
}

#[test]
fn lines_before_the_first_section_make_a_section() {
    let sections = split_sections("preface\n more\nCall graph node a\n x\r\nCall graph node b\n");
    assert_eq!(
        sections,
        vec![strs(&["preface", "more"]), strs(&["Call graph node a", "x"]), strs(&["Call graph node b"])]
    );
}

#[test]
fn an_empty_dump_has_no_section() {
    assert!(split_sections("").is_empty());
    assert!(split_sections(" \n\t\n\r\n").is_empty());
    assert_eq!(process_graph("").map(|l| l.len()), Some(0));
}

#[test]
fn a_dump_gives_its_functions_by_address() {
    let index: Vec<_> = process_graph(DUMP).unwrap().into_iter().map(parts).collect();
    assert_eq!(
        index,
        vec![
            (String::new(), 0, 0, strs(&["main", "helper"])),
            (String::from("helper"), 2, 0x5588, Vec::new()),
            (String::from("main"), 1, 0x5590, strs(&["helper"])),
        ]
    );
}

#[test]
fn of_functions_with_one_address_the_first_is_kept() {
    let dump = "\
Call graph node for function: 'b'<<0x2>>  #uses=1
Call graph node for function: 'a'<<0x1>>  #uses=1
Call graph node for function: 'c'<<0x2>>  #uses=5
Call graph node for function: 'd'<<0x1>>  #uses=6
Call graph node for function: 'e'<<0x0>>  #uses=7
";
    let index: Vec<_> = process_graph(dump).unwrap().into_iter().map(|n| (n.name, n.address)).collect();
    assert_eq!(index, vec![(String::from("e"), 0), (String::from("a"), 1), (String::from("b"), 2)]);
}

#[test]
fn a_dump_with_a_section_that_cannot_be_read_gives_nothing() {
    let dump = "\
Call graph node for function: 'a'<<0x1>>  #uses=1
Call graph node for function: 'b'<<oops>>  #uses=1
Call graph node for function: 'c'<<0x3>>  #uses=1
";
    assert!(process_graph(dump).is_none());
}

#[test]
fn the_index_has_the_addresses_that_sort_and_dedup_give() {
    let mut dump = String::new();
    let addresses = [9usize, 3, 7, 3, 1, 9, 9, 4, 0, 7, 12, 5];
    for (i, a) in addresses.iter().enumerate() {
        dump.push_str(&format!("Call graph node for function: 'f{}'<<0x{:x}>>  #uses={}\n  CS calls 'g'\n", i, a, i));
    }
    let index = process_graph(&dump).unwrap();
    let mut expected = addresses.to_vec();
    expected.sort_unstable();
    expected.dedup();
    assert_eq!(index.iter().map(|n| n.address).collect::<Vec<_>>(), expected);
    for n in &index {
        let first = addresses.iter().position(|a| *a == n.address).unwrap();
        assert_eq!(n.name, format!("f{}", first));
        assert_eq!(n.uses, first);
        assert_eq!(n.call_list, strs(&["g"]));
    }
}
