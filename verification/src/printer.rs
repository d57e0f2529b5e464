//! The output of the meta-commands: the tree, node by node, and the
//! constants of the layout.

use vstd::prelude::*;
use vstd::string::*;
use crate::layout::{
    get_node_type, internal_node_child, internal_node_key, internal_node_num_keys,
    internal_node_right_child, leaf_node_key, leaf_node_num_cells, lemma_constants,
    spec_internal_child, spec_internal_key, COMMON_NODE_HEADER_SIZE, LEAF_NODE_CELL_SIZE,
    LEAF_NODE_HEADER_SIZE, LEAF_NODE_MAX_CELLS, LEAF_NODE_SPACE_FOR_CELLS, NodeType, ROW_SIZE,
};
use crate::node::{lemma_leaf_cell_entry, node_of, Node};
use crate::statement::{texts, trimmed, InputBuffer};
use crate::store::db_close;
use crate::table::{page_read, Table};
use crate::text::{decimal, decimal_text, same_text};
use crate::tree::{link_ok, node_ok, Pending};

verus! {

/// Two spaces for each level.
pub open spec fn indent_text(level: nat) -> Seq<char>
    decreases level,
{
    if level == 0 {
        Seq::empty()
    } else {
        indent_text((level - 1) as nat) + "  "@
    }
}

/// The lines of a leaf: its size, and below it every key.
pub open spec fn leaf_lines(nd: Node, level: nat) -> Seq<Seq<char>> {
    seq![indent_text(level) + "- leaf (size "@ + decimal(nd.cells.len()) + ")"@] + Seq::new(
        nd.cells.len(),
        |i: int| indent_text(level + 1) + "- "@ + decimal(nd.cells[i].key as nat),
    )
}

/// The lines of the first `upto` cells of an internal node: for each cell
/// the lines of the child, and the key behind them.
pub open spec fn cells_lines(t: Seq<Node>, p: int, upto: nat, level: nat, fuel: nat) -> Seq<
    Seq<char>,
>
    decreases fuel, upto,
{
    if upto == 0 || fuel == 0 {
        Seq::empty()
    } else {
        cells_lines(t, p, (upto - 1) as nat, level, fuel) + tree_lines(
            t,
            t[p].kids[upto - 1] as int,
            level + 1,
            (fuel - 1) as nat,
        ) + seq![indent_text(level + 1) + "- key "@ + decimal(t[p].keys[upto - 1] as nat)]
    }
}

/// The lines of the tree below page `p`, which stands `fuel` levels above
/// the leaves at most: a leaf gives its size and its keys; an internal
/// node its size, then for each cell the child and the key, then the
/// right child. Each level is indented by two spaces more.
pub open spec fn tree_lines(t: Seq<Node>, p: int, level: nat, fuel: nat) -> Seq<Seq<char>>
    decreases fuel, t[p].keys.len() + 1,
{
    if t[p].leaf {
        leaf_lines(t[p], level)
    } else if fuel == 0 {
        Seq::empty()
    } else {
        seq![indent_text(level) + "- internal (size "@ + decimal(t[p].keys.len()) + ")"@]
            + cells_lines(t, p, t[p].keys.len(), level, fuel) + tree_lines(
            t,
            t[p].kids[t[p].keys.len() as int] as int,
            level + 1,
            (fuel - 1) as nat,
        )
    }
}

/// Two spaces for each level.
pub fn indent(level: usize) -> (text: String)
    ensures
        text@ == indent_text(level as nat),
{
    let mut text = String::new();
    let mut i: usize = 0;
    while i < level
        invariant
            i <= level,
            text@ == indent_text(i as nat),
        decreases level - i,
    {
        text.append("  ");
        i = i + 1;
    }
    text
}

/// A line: the indentation, a word, a number, and what closes the line.
fn numbered_line(level: usize, word: &str, number: u32, close: &str) -> (line: String)
    ensures
        line@ == indent_text(level as nat) + word@ + decimal(number as nat) + close@,
{
    let mut line = indent(level);
    line.append(word);
    let digits = decimal_text(number);
    line.append(digits.as_str());
    line.append(close);
    line
}

impl Table {
    /// The lines that show the tree below page `p`.
    pub open spec fn tree_text(&self, p: int, level: nat) -> Seq<Seq<char>> {
        tree_lines(self.nodes(), p, level, self.shape@.height[p] as nat)
    }
}

/// The texts of two runs of lines, one after the other.
proof fn lemma_texts_add(a: Seq<String>, b: Seq<String>)
    ensures
        texts(a + b) == texts(a) + texts(b),
{
    assert(texts(a + b) =~= texts(a) + texts(b));
}

/// The lines that show the tree below page `page_num`, indented by
/// `indentation_level` levels.
pub fn print_tree(table: &mut Table, page_num: usize, indentation_level: usize) -> (lines: Vec<
    String,
>)
    requires
        old(table).wf(),
        page_num < old(table).pager.num_pages,
        indentation_level + old(table).shape@.height[page_num as int] < usize::MAX,
    ensures
        final(table).wf(),
        final(table).same_as(old(table)),
        final(table).nodes() == old(table).nodes(),
        texts(lines@) == old(table).tree_text(page_num as int, indentation_level as nat),
    decreases old(table).shape@.height[page_num as int],
{
    let ghost t = table.nodes();
    let ghost sh = table.shape@;
    let ghost none = Pending::Nothing;
    let ghost p = page_num as int;
    let ghost fuel = sh.height[p] as nat;
    let ghost level = indentation_level as nat;
    let ghost bytes = table.pager.page_view(p);
    proof {
        lemma_constants();
        assert(node_ok(t, sh, none, p));
        assert(t[p] == node_of(bytes));
        if !t[p].leaf {
            assert forall|k: int| 0 <= k <= t[p].keys.len() implies t[p].kids[k] < 100 by {
                assert(link_ok(t, sh, none, p, k));
            }
        }
    }
    let mut keys: Vec<u32> = Vec::new();
    let mut children: Vec<u32> = Vec::new();
    let node = page_read(table, page_num);
    let node_type = get_node_type(node);
    let num_keys: u32;
    let right_child: u32;
    match node_type {
        NodeType::Leaf => {
            num_keys = leaf_node_num_cells(node);
            right_child = 0;
            let mut i: u32 = 0;
            while i < num_keys
                invariant
                    i <= num_keys <= 13,
                    node@ == bytes,
                    t[p] == node_of(bytes),
                    t[p].leaf,
                    num_keys == t[p].cells.len(),
                    keys@.len() == i,
                    forall|k: int| 0 <= k < i ==> keys@[k] == t[p].cells[k].key,
                decreases num_keys - i,
            {
                proof {
                    lemma_leaf_cell_entry(bytes, i as int);
                }
                keys.push(leaf_node_key(node, i as usize));
                i = i + 1;
            }
        },
        NodeType::Internal => {
            num_keys = internal_node_num_keys(node);
            let mut i: u32 = 0;
            while i < num_keys
                invariant
                    i <= num_keys <= 3,
                    node@ == bytes,
                    t[p] == node_of(bytes),
                    !t[p].leaf,
                    num_keys == t[p].keys.len(),
                    t[p].kids.len() == num_keys + 1,
                    forall|k: int| 0 <= k <= num_keys ==> t[p].kids[k] < 100,
                    keys@.len() == i,
                    children@.len() == i,
                    forall|k: int| 0 <= k < i ==> keys@[k] == t[p].keys[k],
                    forall|k: int| 0 <= k < i ==> children@[k] == t[p].kids[k],
                decreases num_keys - i,
            {
                proof {
                    assert(t[p].kids[i as int] == spec_internal_child(bytes, i as int));
                    assert(t[p].keys[i as int] == spec_internal_key(bytes, i as int));
                }
                children.push(internal_node_child(node, i as usize));
                keys.push(internal_node_key(node, i as usize));
                i = i + 1;
            }
            right_child = internal_node_right_child(node);
        },
    }
    let mut lines: Vec<String> = Vec::new();
    match node_type {
        NodeType::Leaf => {
            lines.push(numbered_line(indentation_level, "- leaf (size ", num_keys, ")"));
            let mut i: usize = 0;
            while i < keys.len()
                invariant
                    i <= keys@.len(),
                    keys@.len() == t[p].cells.len(),
                    indentation_level < usize::MAX,
                    level == indentation_level,
                    forall|k: int| 0 <= k < keys@.len() ==> keys@[k] == t[p].cells[k].key,
                    lines@.len() == i + 1,
                    forall|k: int|
                        0 <= k <= i ==> (#[trigger] lines@[k])@ == leaf_lines(t[p], level)[k],
                decreases keys@.len() - i,
            {
                let ghost before = lines@;
                lines.push(numbered_line(indentation_level + 1, "- ", keys[i], ""));
                proof {
                    reveal_strlit("");
                    let line = lines@[i + 1]@;
                    assert(line =~= indent_text(level + 1) + "- "@ + decimal(
                        keys@[i as int] as nat,
                    ));
                    assert forall|k: int| 0 <= k <= i + 1 implies (#[trigger] lines@[k])@
                        == leaf_lines(t[p], level)[k] by {
                        if k <= i {
                            assert(lines@[k] == before[k]);
                        }
                    }
                }
                i = i + 1;
            }
            proof {
                let want = leaf_lines(t[p], level);
                assert(texts(lines@).len() == want.len());
                assert forall|k: int| 0 <= k < want.len() implies texts(lines@)[k] == want[k] by {
                    assert(texts(lines@)[k] == lines@[k]@);
                }
                assert(texts(lines@) =~= want);
            }
        },
        NodeType::Internal => {
            lines.push(numbered_line(indentation_level, "- internal (size ", num_keys, ")"));
            let ghost head = lines@;
            let mut i: usize = 0;
            while i < num_keys as usize
                invariant
                    i <= num_keys <= 3,
                    table.wf(),
                    table.same_as(old(table)),
                    table.nodes() == t,
                    table.shape@ == sh,
                    none == Pending::Nothing,
                    p == page_num,
                    0 <= p < t.len(),
                    !t[p].leaf,
                    fuel == sh.height[p],
                    level == indentation_level,
                    indentation_level + sh.height[p] < usize::MAX,
                    num_keys == t[p].keys.len(),
                    keys@.len() == num_keys,
                    children@.len() == num_keys,
                    forall|k: int| 0 <= k < num_keys ==> keys@[k] == t[p].keys[k],
                    forall|k: int| 0 <= k < num_keys ==> children@[k] == t[p].kids[k],
                    texts(lines@) == texts(head) + cells_lines(t, p, i as nat, level, fuel),
                decreases num_keys - i,
            {
                let child: u32 = children[i];
                proof {
                    assert(node_ok(t, sh, none, p));
                    assert(link_ok(t, sh, none, p, i as int));
                }
                let ghost before = lines@;
                let mut child_lines = print_tree(table, child as usize, indentation_level + 1);
                let ghost below = child_lines@;
                lines.append(&mut child_lines);
                lines.push(numbered_line(indentation_level + 1, "- key ", keys[i], ""));
                proof {
                    reveal_strlit("");
                    let key_line = lines@[lines@.len() - 1];
                    assert(key_line@ =~= indent_text(level + 1) + "- key "@ + decimal(
                        t[p].keys[i as int] as nat,
                    ));
                    assert(lines@ =~= (before + below).push(key_line));
                    lemma_texts_add(before, below);
                    lemma_texts_add(before + below, seq![key_line]);
                    assert((before + below).push(key_line) =~= (before + below) + seq![key_line]);
                    assert(texts(seq![key_line]) =~= seq![key_line@]);
                    assert(texts(lines@) =~= texts(head) + cells_lines(
                        t,
                        p,
                        (i + 1) as nat,
                        level,
                        fuel,
                    ));
                }
                i = i + 1;
            }
            proof {
                assert(node_ok(t, sh, none, p));
                assert(link_ok(t, sh, none, p, num_keys as int));
                assert(t[p].kids[num_keys as int] == right_child);
            }
            let ghost before = lines@;
            let mut right_lines = print_tree(table, right_child as usize, indentation_level + 1);
            let ghost below = right_lines@;
            lines.append(&mut right_lines);
            proof {
                lemma_texts_add(before, below);
                assert(texts(head) =~= seq![
                    indent_text(level) + "- internal (size "@ + decimal(t[p].keys.len()) + ")"@,
                ]);
            }
        },
    }
    lines
}

/// A line that names a constant and gives its value.
fn constant_line(name: &str, value: usize) -> (line: String)
    requires
        value <= u32::MAX,
    ensures
        line@ == name@ + ": "@ + decimal(value as nat),
{
    let mut line = String::from_str(name);
    line.append(": ");
    let digits = decimal_text(value as u32);
    line.append(digits.as_str());
    line
}

/// The lines that give the constants of the layout.
pub open spec fn constants_text() -> Seq<Seq<char>> {
    seq![
        "ROW_SIZE"@ + ": "@ + decimal(ROW_SIZE as nat),
        "COMMON_NODE_HEADER_SIZE"@ + ": "@ + decimal(COMMON_NODE_HEADER_SIZE as nat),
        "LEAF_NODE_HEADER_SIZE"@ + ": "@ + decimal(LEAF_NODE_HEADER_SIZE as nat),
        "LEAF_NODE_CELL_SIZE"@ + ": "@ + decimal(LEAF_NODE_CELL_SIZE as nat),
        "LEAF_NODE_SPACE_FOR_CELLS"@ + ": "@ + decimal(LEAF_NODE_SPACE_FOR_CELLS as nat),
        "LEAF_NODE_MAX_CELLS"@ + ": "@ + decimal(LEAF_NODE_MAX_CELLS as nat),
    ]
}

/// The lines that give the constants of the layout.
pub fn print_constants() -> (lines: Vec<String>)
    ensures
        texts(lines@) == constants_text(),
{
    proof {
        lemma_constants();
    }
    let mut lines: Vec<String> = Vec::new();
    lines.push(constant_line("ROW_SIZE", ROW_SIZE));
    lines.push(constant_line("COMMON_NODE_HEADER_SIZE", COMMON_NODE_HEADER_SIZE));
    lines.push(constant_line("LEAF_NODE_HEADER_SIZE", LEAF_NODE_HEADER_SIZE));
    lines.push(constant_line("LEAF_NODE_CELL_SIZE", LEAF_NODE_CELL_SIZE));
    lines.push(constant_line("LEAF_NODE_SPACE_FOR_CELLS", LEAF_NODE_SPACE_FOR_CELLS));
    lines.push(constant_line("LEAF_NODE_MAX_CELLS", LEAF_NODE_MAX_CELLS));
    proof {
        assert(texts(lines@) =~= constants_text());
    }
    lines
}

/// Whether a meta-command was one.
#[derive(Debug, Clone, Copy, PartialEq, Eq, Structural)]
pub enum MetaCommandResult {
    Success,
    UnrecognizedCommand,
}

/// What a meta-command came to.
pub struct MetaOutput {
    pub result: MetaCommandResult,
    /// The lines to print.
    pub lines: Vec<String>,
    /// Whether the table was closed and the program is to end.
    pub exit: bool,
}

/// Does what the meta-command in the input buffer says: `.exit` closes the
/// table, `.btree` shows the tree, `.constants` the constants of the
/// layout.
pub fn do_meta_command(input: &InputBuffer, table: &mut Table) -> (output: MetaOutput)
    requires
        old(table).wf(),
    ensures
        final(table).wf(),
        final(table).same_pages(old(table)),
        final(table).nodes() == old(table).nodes(),
        ({
            let command = trimmed(input.buffer@);
            if command == ".exit"@ {
                &&& output.result == MetaCommandResult::Success
                &&& output.exit
                &&& output.lines@.len() == 0
                &&& forall|p: int| !final(table).pager.resident(p)
                &&& final(table).pager.file@.len() == 4096 * old(table).pager.num_pages
            } else if command == ".btree"@ {
                &&& output.result == MetaCommandResult::Success
                &&& !output.exit
                &&& texts(output.lines@) == seq!["Tree:"@] + old(table).tree_text(0, 0)
                &&& final(table).same_as(old(table))
            } else if command == ".constants"@ {
                &&& output.result == MetaCommandResult::Success
                &&& !output.exit
                &&& texts(output.lines@) == seq!["Constants:"@] + constants_text()
                &&& final(table).same_as(old(table))
            } else {
                &&& output.result == MetaCommandResult::UnrecognizedCommand
                &&& !output.exit
                &&& output.lines@.len() == 0
                &&& final(table).same_as(old(table))
            }
        }),
{
    let command: &str = crate::statement::trim_text(input.buffer.as_str());
    if same_text(command, ".exit") {
        let ghost before = *table;
        db_close(table);
        proof {
            crate::table::lemma_stored_same(before, *table);
        }
        MetaOutput { result: MetaCommandResult::Success, lines: Vec::new(), exit: true }
    } else if same_text(command, ".btree") {
        let mut lines: Vec<String> = Vec::new();
        lines.push(String::from_str("Tree:"));
        let ghost head = lines@;
        proof {
            assert(crate::tree::node_ok(table.nodes(), table.shape@, Pending::Nothing, 0));
        }
        let mut tree = print_tree(table, 0, 0);
        let ghost below = tree@;
        lines.append(&mut tree);
        proof {
            lemma_texts_add(head, below);
            assert(texts(head) =~= seq!["Tree:"@]);
        }
        MetaOutput { result: MetaCommandResult::Success, lines, exit: false }
    } else if same_text(command, ".constants") {
        let mut lines: Vec<String> = Vec::new();
        lines.push(String::from_str("Constants:"));
        let ghost head = lines@;
        let mut constants = print_constants();
        let ghost below = constants@;
        lines.append(&mut constants);
        proof {
            lemma_texts_add(head, below);
            assert(texts(head) =~= seq!["Constants:"@]);
        }
        MetaOutput { result: MetaCommandResult::Success, lines, exit: false }
    } else {
        MetaOutput { result: MetaCommandResult::UnrecognizedCommand, lines: Vec::new(), exit: false }
    }
}

/// What is said of a meta-command that is none.
pub fn meta_message(input: &InputBuffer) -> (message: String)
    ensures
        message@ == "Unrecognized command '"@ + input.buffer@ + "'."@,
{
    let mut message = String::from_str("Unrecognized command '");
    message.append(input.buffer.as_str());
    message.append("'.");
    message
}

} // verus!
