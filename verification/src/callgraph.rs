//! Reading the dump of a call graph.
//!
//! The dump is a text of sections, one for each function. A section
//! begins with a line such as
//! `Call graph node for function: 'main'<<0x55d0c8>>  #uses=1`
//! and goes on with one line for each call made in the function, such as
//! `CS<0x55d0d0> calls function 'printf'`.

use vstd::prelude::*;
use vstd::string::*;
use crate::model::texts;
use crate::text::{
    chars_of, find, find_from, kept, last_part, last_piece, matches_at, parse_decimal, parse_hex,
    part, pieces, rows, split_and_trim, stands_at, strip, strip_prefixes, stripped, text_of,
    unsigned_of, without_leading, without_prefixes, without_trailing, Class,
};

verus! {

/// A function of the call graph.
#[derive(Debug, Clone)]
pub struct GraphNode {
    pub name: String,
    pub uses: usize,
    pub address: usize,
    pub call_list: Vec<String>,
}

/// A function of the call graph, as plain values.
pub struct NodeView {
    pub name: Seq<char>,
    pub uses: usize,
    pub address: usize,
    pub call_list: Seq<Seq<char>>,
}

impl View for GraphNode {
    type V = NodeView;

    open spec fn view(&self) -> NodeView {
        NodeView {
            name: self.name@,
            uses: self.uses,
            address: self.address,
            call_list: texts(self.call_list@),
        }
    }
}

/// Whether a word ends with a colon.
pub open spec fn is_label(word: Seq<char>) -> bool {
    word.len() > 0 && word.last() == ':'
}

/// The position of the first label at or after `i`, or the number of
/// words if there is none.
pub open spec fn label_from(words: Seq<Seq<char>>, i: int) -> int
    decreases words.len() - i,
{
    if i < 0 || i >= words.len() {
        words.len() as int
    } else if is_label(words[i]) {
        i
    } else {
        label_from(words, i + 1)
    }
}

/// The name and the address that a word such as `'main'<<0x55d0c8>>`
/// gives.
///
/// Quotes at the beginning and angle brackets at the end are left out.
/// The name is what stands before the first `'<<`. The address is what
/// follows it, up to the next `'<<` if there is one, read in base sixteen
/// after any `0x` it begins with. A word without `'<<`, or with an
/// address that is no number, gives nothing.
pub open spec fn name_and_address(word: Seq<char>) -> Option<(Seq<char>, usize)> {
    let core = without_trailing(without_leading(word, Class::Only('\'')), Class::Only('>'));
    let mark = "'<<"@;
    match find_from(core, mark, 0) {
        None => None,
        Some(i) => {
            let from = i + mark.len();
            let to = match find_from(core, mark, from) {
                Some(j) => j,
                None => core.len() as int,
            };
            match unsigned_of(without_prefixes(core.subrange(from, to), "0x"@), 16) {
                Some(address) => Some((core.take(i), address)),
                None => None,
            }
        },
    }
}

/// The count that a word such as `#uses=1` gives: what follows any
/// `#uses=` it begins with, read in base ten.
pub open spec fn uses_of(word: Seq<char>) -> Option<usize> {
    unsigned_of(without_prefixes(word, "#uses="@), 10)
}

/// The name, the address and the count of uses that the words of the
/// first line of a section give.
///
/// The word after the first label gives the name and the address, the
/// word after that the count. A word that is missing leaves its values
/// empty or zero; a word that cannot be read gives nothing at all.
pub open spec fn head_of(words: Seq<Seq<char>>) -> Option<(Seq<char>, usize, usize)> {
    let i = label_from(words, 0);
    if i + 1 >= words.len() {
        Some((Seq::empty(), 0, 0))
    } else {
        match name_and_address(words[i + 1]) {
            None => None,
            Some((name, address)) => if i + 2 >= words.len() {
                Some((name, address, 0))
            } else {
                match uses_of(words[i + 2]) {
                    None => None,
                    Some(uses) => Some((name, address, uses)),
                }
            },
        }
    }
}

/// Whether a line tells of a call to something outside the graph.
pub open spec fn is_external(line: Seq<char>) -> bool {
    find_from(line, "external node"@, 0) is Some
}

/// The function that a line tells a call of: the last word of the line,
/// without the quotes around it.
pub open spec fn callee_of(line: Seq<char>) -> Seq<char> {
    stripped(last_piece(line, ' '), Class::Only('\''))
}

/// The functions called in the given lines, leaving out the calls to
/// something outside the graph.
pub open spec fn callees(lines: Seq<Seq<char>>) -> Seq<Seq<char>>
    decreases lines.len(),
{
    if lines.len() == 0 {
        Seq::empty()
    } else if is_external(lines.last()) {
        callees(lines.drop_last())
    } else {
        callees(lines.drop_last()).push(callee_of(lines.last()))
    }
}

/// The function that a section describes. A section without a line, or
/// with a first line that cannot be read, describes none.
pub open spec fn node_of(section: Seq<Seq<char>>) -> Option<NodeView> {
    if section.len() == 0 {
        None
    } else {
        match head_of(kept(pieces(section[0], ' '))) {
            None => None,
            Some((name, address, uses)) => Some(
                NodeView { name, uses, address, call_list: callees(section.skip(1)) },
            ),
        }
    }
}

/// Reads the word that holds the name and the address.
fn read_name_and_address(word: &Vec<char>) -> (r: Option<(String, usize)>)
    ensures
        match name_and_address(word@) {
            Some((name, address)) => r matches Some(pair) && pair.0@ == name && pair.1 == address,
            None => r is None,
        },
{
    let unquoted = strip(word, Class::Only('\''), true, false);
    let core = strip(&unquoted, Class::Only('>'), false, true);
    let mark = chars_of("'<<");
    let end = core.len();
    let i = match find(&core, &mark, 0) {
        Some(i) => i,
        None => {
            return None;
        },
    };
    let from = i + mark.len();
    let to = match find(&core, &mark, from) {
        Some(j) => j,
        None => end,
    };
    let between = part(&core, from, to);
    let digits = strip_prefixes(&between, &chars_of("0x"));
    match parse_hex(&digits) {
        Some(address) => {
            let name = part(&core, 0, i);
            Some((text_of(&name), address))
        },
        None => None,
    }
}

/// Reads the word that holds the count of uses.
fn read_uses(word: &Vec<char>) -> (r: Option<usize>)
    ensures
        r == uses_of(word@),
{
    let digits = strip_prefixes(word, &chars_of("#uses="));
    parse_decimal(&digits)
}

/// Reads the first line of a section.
fn read_head(head: &str) -> (r: Option<(String, usize, usize)>)
    ensures
        match head_of(kept(pieces(head@, ' '))) {
            Some((name, address, uses)) => r matches Some(head) && head.0@ == name && head.1
                == address && head.2 == uses,
            None => r is None,
        },
{
    let words = split_and_trim(&chars_of(head), ' ');
    let n = words.len();
    let mut i: usize = 0;
    let mut found = false;
    while i < n && !found
        invariant
            i <= n,
            n == words@.len(),
            label_from(rows(words@), 0) == label_from(rows(words@), i as int),
            found ==> i < n && is_label(rows(words@)[i as int]),
        decreases n - i + if found { 0int } else { 1int },
    {
        let word = &words[i];
        if word.len() > 0 && word[word.len() - 1] == ':' {
            found = true;
        } else {
            i += 1;
        }
    }
    if n < 2 || i >= n - 1 {
        return Some((String::new(), 0, 0));
    }
    let (name, address) = match read_name_and_address(&words[i + 1]) {
        Some(pair) => pair,
        None => {
            return None;
        },
    };
    if i + 2 >= n {
        return Some((name, address, 0));
    }
    match read_uses(&words[i + 2]) {
        Some(uses) => Some((name, address, uses)),
        None => None,
    }
}

/// Reads the section of one function.
pub fn parse_node(section: &Vec<String>) -> (node: Option<GraphNode>)
    ensures
        match node_of(texts(section@)) {
            Some(view) => node is Some && node->0@ == view,
            None => node is None,
        },
{
    if section.len() == 0 {
        return None;
    }
    let (name, address, uses) = match read_head(section[0].as_str()) {
        Some(head) => head,
        None => {
            return None;
        },
    };
    let outside = chars_of("external node");
    let ghost lines = texts(section@).skip(1);
    let mut call_list: Vec<String> = Vec::new();
    let mut i: usize = 1;
    proof {
        assert(lines.take(0) =~= Seq::<Seq<char>>::empty());
    }
    while i < section.len()
        invariant
            1 <= i <= section@.len(),
            outside@ == "external node"@,
            lines == texts(section@).skip(1),
            texts(call_list@) == callees(lines.take(i - 1)),
        decreases section@.len() - i,
    {
        let line = chars_of(section[i].as_str());
        let ghost held = texts(call_list@);
        proof {
            assert(lines.take(i as int).drop_last() =~= lines.take(i - 1));
            assert(lines.take(i as int).last() == line@);
        }
        if find(&line, &outside, 0).is_none() {
            let word = strip(&last_part(&line, ' '), Class::Only('\''), true, true);
            let callee = text_of(&word);
            let ghost c = callee@;
            call_list.push(callee);
            proof {
                assert(texts(call_list@) =~= held.push(c));
            }
        }
        i += 1;
    }
    proof {
        assert(lines.take(section@.len() - 1) =~= lines);
    }
    Some(GraphNode { name, uses, address, call_list })
}

/// Whether a line begins the section of a function.
pub open spec fn starts_node(line: Seq<char>) -> bool {
    matches_at(line, "Call graph node"@, 0)
}

/// The lines of a dump: its parts between line feeds, each without the
/// whitespace at its ends, leaving out the empty ones.
pub open spec fn lines_of(dump: Seq<char>) -> Seq<Seq<char>> {
    kept(pieces(dump, '\n'))
}

/// The lines of the section that the given lines end in.
pub open spec fn open_section(lines: Seq<Seq<char>>) -> Seq<Seq<char>>
    decreases lines.len(),
{
    if lines.len() == 0 {
        Seq::empty()
    } else if starts_node(lines.last()) && open_section(lines.drop_last()).len() > 0 {
        seq![lines.last()]
    } else {
        open_section(lines.drop_last()).push(lines.last())
    }
}

/// The sections among the given lines that another section follows.
pub open spec fn closed_sections(lines: Seq<Seq<char>>) -> Seq<Seq<Seq<char>>>
    decreases lines.len(),
{
    if lines.len() == 0 {
        Seq::empty()
    } else if starts_node(lines.last()) && open_section(lines.drop_last()).len() > 0 {
        closed_sections(lines.drop_last()).push(open_section(lines.drop_last()))
    } else {
        closed_sections(lines.drop_last())
    }
}

/// The sections of the given lines: a section goes from a line that
/// begins one up to the next such line. Lines before the first such line
/// make a section of their own.
pub open spec fn sections_of(lines: Seq<Seq<char>>) -> Seq<Seq<Seq<char>>> {
    if open_section(lines).len() > 0 {
        closed_sections(lines).push(open_section(lines))
    } else {
        closed_sections(lines)
    }
}

/// The functions that the sections describe, in order, if every section
/// describes one.
pub open spec fn nodes_of(sections: Seq<Seq<Seq<char>>>) -> Option<Seq<NodeView>>
    decreases sections.len(),
{
    if sections.len() == 0 {
        Some(Seq::empty())
    } else {
        match (nodes_of(sections.drop_last()), node_of(sections.last())) {
            (Some(nodes), Some(node)) => Some(nodes.push(node)),
            _ => None,
        }
    }
}

/// The views of a list of functions.
pub open spec fn node_views(nodes: Seq<GraphNode>) -> Seq<NodeView> {
    nodes.map_values(|n: GraphNode| n@)
}

/// The texts of a list of sections.
pub open spec fn section_texts(sections: Seq<Vec<String>>) -> Seq<Seq<Seq<char>>> {
    sections.map_values(|s: Vec<String>| texts(s@))
}

/// Whether each function has a lower address than all that follow it.
pub open spec fn ascending_by_address(nodes: Seq<NodeView>) -> bool {
    forall|i: int, j: int|
        0 <= i < j < nodes.len() ==> (#[trigger] nodes[i]).address < (#[trigger] nodes[j]).address
}

/// Whether no function before place `q` has the address of the one at `q`.
pub open spec fn is_first_with_address(nodes: Seq<NodeView>, q: int) -> bool {
    forall|r: int| 0 <= r < q ==> (#[trigger] nodes[r]).address != nodes[q].address
}

/// Whether `node` is, among `nodes`, the first with its address.
pub open spec fn is_first_of(node: NodeView, nodes: Seq<NodeView>) -> bool {
    exists|q: int| 0 <= q < nodes.len() && #[trigger] nodes[q] == node && is_first_with_address(nodes, q)
}

/// Whether some function of `nodes` has the address.
pub open spec fn has_address(nodes: Seq<NodeView>, address: usize) -> bool {
    exists|p: int| 0 <= p < nodes.len() && (#[trigger] nodes[p]).address == address
}

/// Whether `index` lists the functions of `nodes` by ascending address,
/// one for each address: the first that has it.
pub open spec fn is_index(index: Seq<NodeView>, nodes: Seq<NodeView>) -> bool {
    &&& ascending_by_address(index)
    &&& forall|p: int| 0 <= p < index.len() ==> is_first_of(#[trigger] index[p], nodes)
    &&& forall|q: int| 0 <= q < nodes.len() ==> has_address(index, (#[trigger] nodes[q]).address)
}

/// Puts a function at its place in an index of the functions read so
/// far, unless the index holds one with its address.
fn insert_node(index: &mut Vec<GraphNode>, node: GraphNode, Ghost(nodes): Ghost<Seq<NodeView>>)
    requires
        is_index(node_views(old(index)@), nodes),
    ensures
        is_index(node_views(final(index)@), nodes.push(node@)),
{
    let ghost before = node_views(index@);
    let ghost fresh = node@;
    let ghost grown = nodes.push(fresh);
    let address = node.address;
    let mut i: usize = 0;
    while i < index.len() && index[i].address < address
        invariant
            i <= index@.len(),
            index@ == old(index)@,
            before == node_views(index@),
            forall|j: int| 0 <= j < i ==> (#[trigger] before[j]).address < address,
        decreases index@.len() - i,
    {
        i += 1;
    }
    if i < index.len() && index[i].address == address {
        proof {
            assert forall|p: int| 0 <= p < before.len() implies is_first_of(
                #[trigger] before[p],
                grown,
            ) by {
                assert(is_first_of(before[p], nodes));
                let q = choose|q: int|
                    0 <= q < nodes.len() && #[trigger] nodes[q] == before[p]
                        && is_first_with_address(nodes, q);
                assert(grown[q] == before[p]);
                assert forall|r: int| 0 <= r < q implies (#[trigger] grown[r]).address
                    != grown[q].address by {
                    assert(nodes[r].address != nodes[q].address);
                }
            }
            assert forall|q: int| 0 <= q < grown.len() implies has_address(
                before,
                (#[trigger] grown[q]).address,
            ) by {
                if q < nodes.len() {
                    assert(has_address(before, nodes[q].address));
                } else {
                    assert(before[i as int].address == address);
                }
            }
        }
        return ;
    }
    index.insert(i, node);
    proof {
        let after = node_views(index@);
        assert(after =~= before.insert(i as int, fresh));
        assert forall|p: int| 0 <= p < before.len() implies (#[trigger] before[p]).address
            != address by {
            if p >= i {
                if p > i {
                    assert(before[i as int].address < before[p].address);
                }
            }
        }
        assert forall|p: int, q: int| 0 <= p < q < after.len() implies (#[trigger] after[p]).address
            < (#[trigger] after[q]).address by {
            let p0 = if p < i { p } else { p - 1 };
            let q0 = if q < i { q } else { q - 1 };
            if p == i {
                assert(after[q] == before[q0]);
                if q0 > i {
                    assert(before[i as int].address < before[q0].address);
                }
            } else if q == i {
                assert(after[p] == before[p0]);
            } else {
                assert(after[p] == before[p0]);
                assert(after[q] == before[q0]);
            }
        }
        assert forall|p: int| 0 <= p < after.len() implies is_first_of(
            #[trigger] after[p],
            grown,
        ) by {
            if p == i {
                assert(grown[nodes.len() as int] == fresh);
                assert forall|r: int| 0 <= r < nodes.len() implies (#[trigger] grown[r]).address
                    != grown[nodes.len() as int].address by {
                    assert(has_address(before, nodes[r].address));
                    let w = choose|w: int|
                        0 <= w < before.len() && (#[trigger] before[w]).address == nodes[r].address;
                    assert(before[w].address != address);
                }
                assert(is_first_with_address(grown, nodes.len() as int));
            } else {
                let p0 = if p < i { p } else { p - 1 };
                assert(after[p] == before[p0]);
                assert(is_first_of(before[p0], nodes));
                let q = choose|q: int|
                    0 <= q < nodes.len() && #[trigger] nodes[q] == before[p0]
                        && is_first_with_address(nodes, q);
                assert(grown[q] == after[p]);
                assert forall|r: int| 0 <= r < q implies (#[trigger] grown[r]).address
                    != grown[q].address by {
                    assert(nodes[r].address != nodes[q].address);
                }
            }
        }
        assert forall|q: int| 0 <= q < grown.len() implies has_address(
            after,
            (#[trigger] grown[q]).address,
        ) by {
            if q < nodes.len() {
                assert(has_address(before, nodes[q].address));
                let w = choose|w: int|
                    0 <= w < before.len() && (#[trigger] before[w]).address == nodes[q].address;
                if w < i {
                    assert(after[w] == before[w]);
                } else {
                    assert(after[w + 1] == before[w]);
                }
            } else {
                assert(after[i as int] == fresh);
            }
        }
    }
}

/// The sections of a dump.
pub fn split_sections(dump: &str) -> (sections: Vec<Vec<String>>)
    ensures
        section_texts(sections@) == sections_of(lines_of(dump@)),
{
    let lines = split_and_trim(&chars_of(dump), '\n');
    let prefix = chars_of("Call graph node");
    let mut sections: Vec<Vec<String>> = Vec::new();
    let mut buffer: Vec<String> = Vec::new();
    let ghost all = rows(lines@);
    let mut i: usize = 0;
    proof {
        assert(all.take(0) =~= Seq::<Seq<char>>::empty());
        assert(section_texts(sections@) =~= closed_sections(all.take(0)));
        assert(texts(buffer@) =~= open_section(all.take(0)));
    }
    while i < lines.len()
        invariant
            i <= lines@.len(),
            all == rows(lines@),
            prefix@ == "Call graph node"@,
            section_texts(sections@) == closed_sections(all.take(i as int)),
            texts(buffer@) == open_section(all.take(i as int)),
        decreases lines@.len() - i,
    {
        let line = &lines[i];
        let ghost done = section_texts(sections@);
        let ghost open = texts(buffer@);
        proof {
            assert(all.take(i + 1).drop_last() =~= all.take(i as int));
            assert(all.take(i + 1).last() == line@);
        }
        if stands_at(line, &prefix, 0) && buffer.len() > 0 {
            sections.push(buffer);
            buffer = Vec::new();
            proof {
                assert(section_texts(sections@) =~= done.push(open));
            }
        }
        let ghost held = texts(buffer@);
        let text = text_of(line);
        buffer.push(text);
        proof {
            assert(texts(buffer@) =~= held.push(line@));
            assert(held.len() == 0 ==> held.push(line@) =~= seq![line@]);
        }
        i += 1;
    }
    proof {
        assert(all.take(lines@.len() as int) =~= all);
    }
    if buffer.len() > 0 {
        let ghost done = section_texts(sections@);
        let ghost open = texts(buffer@);
        sections.push(buffer);
        proof {
            assert(section_texts(sections@) =~= done.push(open));
        }
    }
    sections
}

/// Reads a dump: the functions it describes, by ascending address, one
/// for each address. Where several sections give one address, the first
/// of them stands for it. A dump with a section that cannot be read
/// gives nothing.
pub fn process_graph(dump: &str) -> (index: Option<Vec<GraphNode>>)
    ensures
        match nodes_of(sections_of(lines_of(dump@))) {
            Some(nodes) => index matches Some(list) && is_index(node_views(list@), nodes),
            None => index is None,
        },
{
    let sections = split_sections(dump);
    let ghost all = section_texts(sections@);
    let mut list: Vec<GraphNode> = Vec::new();
    let ghost mut nodes: Seq<NodeView> = Seq::empty();
    let mut i: usize = 0;
    proof {
        assert(all.take(0) =~= Seq::<Seq<Seq<char>>>::empty());
    }
    while i < sections.len()
        invariant
            i <= sections@.len(),
            all == section_texts(sections@),
            all == sections_of(lines_of(dump@)),
            nodes_of(all.take(i as int)) == Some(nodes),
            is_index(node_views(list@), nodes),
        decreases sections@.len() - i,
    {
        proof {
            assert(all.take(i + 1).drop_last() =~= all.take(i as int));
            assert(all.take(i + 1).last() == texts(sections@[i as int]@));
            lemma_nodes_prefix(all, i + 1);
        }
        let node = match parse_node(&sections[i]) {
            Some(node) => node,
            None => {
                proof {
                    assert(nodes_of(all.take(i + 1)) is None);
                }
                return None;
            },
        };
        let ghost view = node@;
        insert_node(&mut list, node, Ghost(nodes));
        proof {
            nodes = nodes.push(view);
        }
        i += 1;
    }
    proof {
        assert(all.take(sections@.len() as int) =~= all);
    }
    Some(list)
}

/// Sections describe functions only if the sections before them do.
pub proof fn lemma_nodes_prefix(sections: Seq<Seq<Seq<char>>>, k: int)
    requires
        0 <= k <= sections.len(),
    ensures
        nodes_of(sections) is Some ==> nodes_of(sections.take(k)) is Some,
    decreases sections.len(),
{
    if k == sections.len() {
        assert(sections.take(k) =~= sections);
    } else {
        lemma_nodes_prefix(sections.drop_last(), k);
        assert(sections.drop_last().take(k) =~= sections.take(k));
    }
}

} // verus!
