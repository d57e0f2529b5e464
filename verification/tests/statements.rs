use btree_store::insert::ExecuteResult;
use btree_store::printer::{do_meta_command, meta_message, print_constants, print_tree, MetaCommandResult};
use btree_store::statement::{
    execute_message, execute_statement, prepare_insert, prepare_message, prepare_statement,
    render_row, InputBuffer, PrepareResult, Statement, StatementType,
};
use btree_store::store::db_open;
use btree_store::table::Table;

fn buffer(line: &str) -> InputBuffer {
    let mut input = InputBuffer::new();
    input.take_line(&line.to_string());
    input
}

/// Runs one line as the command loop does and returns what it prints.
fn run(table: &mut Table, line: &str) -> Vec<String> {
    let input = buffer(line);
    let mut out = Vec::new();
    if input.buffer.starts_with('.') {
        let output = do_meta_command(&input, table);
        match output.result {
            MetaCommandResult::Success => out.extend(output.lines),
            MetaCommandResult::UnrecognizedCommand => out.push(meta_message(&input)),
        }
        return out;
    }
    let prepared = prepare_statement(&input);
    if let Some(message) = prepare_message(&prepared, &input) {
        out.push(message);
        return out;
    }
    if let PrepareResult::Success(statement) = prepared {
        let (result, rows) = execute_statement(&statement, table);
        for row in rows.iter() {
            out.push(render_row(row));
        }
        out.push(execute_message(result).to_string());
    }
    out
}

#[test]
fn two_rows_are_inserted_and_shown() {
    let mut table = Table::new();
    assert_eq!(run(&mut table, "insert 1 user1 person1@example.com"), vec!["Executed successfully."]);
    assert_eq!(run(&mut table, "insert 2 user2 person2@example.com"), vec!["Executed successfully."]);
    assert_eq!(
        run(&mut table, "select"),
        vec![
            "(1, user1, person1@example.com)",
            "(2, user2, person2@example.com)",
            "Executed successfully.",
        ]
    );
}

#[test]
fn a_second_row_with_the_key_is_refused() {
    let mut table = Table::new();
    assert_eq!(run(&mut table, "insert 1 a a@a"), vec!["Executed successfully."]);
    assert_eq!(run(&mut table, "insert 1 b b@b"), vec!["Error: Duplicate key."]);
    assert_eq!(run(&mut table, "select"), vec!["(1, a, a@a)", "Executed successfully."]);
}

#[test]
fn a_negative_id_is_refused() {
    let mut table = Table::new();
    assert_eq!(run(&mut table, "insert -1 x x@x"), vec!["Error: ID must be positive."]);
    assert_eq!(run(&mut table, "select"), vec!["Executed successfully."]);
}

#[test]
fn a_text_that_is_too_long_is_refused() {
    let mut table = Table::new();
    let name = "a".repeat(33);
    assert_eq!(run(&mut table, &format!("insert 1 {} x@x", name)), vec!["Error: String too long."]);
    let mail = "b".repeat(256);
    assert_eq!(run(&mut table, &format!("insert 1 x {}", mail)), vec!["Error: String too long."]);
    // the longest texts that fit
    let name = "a".repeat(32);
    let mail = "b".repeat(255);
    assert_eq!(
        run(&mut table, &format!("insert 1 {} {}", name, mail)),
        vec!["Executed successfully."]
    );
    assert_eq!(
        run(&mut table, "select"),
        vec![format!("(1, {}, {})", name, mail), "Executed successfully.".to_string()]
    );
}

#[test]
fn the_split_shows_in_the_tree() {
    let mut table = Table::new();
    for id in 1..=14 {
        assert_eq!(
            run(&mut table, &format!("insert {} user{} person{}@example.com", id, id, id)),
            vec!["Executed successfully."]
        );
    }
    let mut want = vec![
        "Tree:".to_string(),
        "- internal (size 1)".to_string(),
        "  - leaf (size 7)".to_string(),
    ];
    for id in 1..=7 {
        want.push(format!("    - {}", id));
    }
    want.push("  - key 7".to_string());
    want.push("  - leaf (size 7)".to_string());
    for id in 8..=14 {
        want.push(format!("    - {}", id));
    }
    assert_eq!(run(&mut table, ".btree"), want);
    // showing the tree changes nothing: the same lines again
    assert_eq!(run(&mut table, ".btree"), want);
    assert_eq!(run(&mut table, "insert 3 x y"), vec!["Error: Duplicate key."]);
    run(&mut table, "select");
    assert_eq!(run(&mut table, ".btree"), want);
}

#[test]
fn rows_are_there_after_exit_and_reopen() {
    let mut table = db_open(Vec::new()).unwrap();
    run(&mut table, "insert 1 user1 person1@example.com");
    run(&mut table, "insert 2 user2 person2@example.com");
    let before = run(&mut table, "select");
    let output = do_meta_command(&buffer(".exit"), &mut table);
    assert!(output.exit);
    assert_eq!(output.result, MetaCommandResult::Success);
    let file = table.pager.file.clone();
    assert_eq!(file.len(), 4096);
    let mut again = db_open(file).unwrap();
    assert_eq!(run(&mut again, "select"), before);
    assert_eq!(
        before,
        vec![
            "(1, user1, person1@example.com)",
            "(2, user2, person2@example.com)",
            "Executed successfully.",
        ]
    );
}

#[test]
fn tree_of_an_empty_table() {
    let mut table = Table::new();
    assert_eq!(print_tree(&mut table, 0, 0), vec!["- leaf (size 0)"]);
    assert_eq!(print_tree(&mut table, 0, 2), vec!["    - leaf (size 0)"]);
}

#[test]
fn tree_of_three_levels() {
    let mut table = Table::new();
    for id in 1..=40 {
        run(&mut table, &format!("insert {} u m", id));
    }
    let lines = print_tree(&mut table, 0, 0);
    assert_eq!(lines[0], "- internal (size 1)");
    assert_eq!(lines[1], "  - internal (size 1)");
    assert_eq!(lines[2], "    - leaf (size 7)");
    assert_eq!(lines[3], "      - 1");
    assert!(lines.contains(&"  - key 14".to_string()));
    assert_eq!(lines.iter().filter(|l| l.contains("leaf")).count(), 5);
    assert_eq!(lines.last().unwrap(), "      - 40");
}

#[test]
fn constants_are_shown() {
    let mut table = Table::new();
    assert_eq!(
        run(&mut table, ".constants"),
        vec![
            "Constants:",
            "ROW_SIZE: 291",
            "COMMON_NODE_HEADER_SIZE: 6",
            "LEAF_NODE_HEADER_SIZE: 14",
            "LEAF_NODE_CELL_SIZE: 295",
            "LEAF_NODE_SPACE_FOR_CELLS: 4082",
            "LEAF_NODE_MAX_CELLS: 13",
        ]
    );
    assert_eq!(print_constants().len(), 6);
}

#[test]
fn unrecognized_lines() {
    let mut table = Table::new();
    assert_eq!(run(&mut table, ".foo"), vec!["Unrecognized command '.foo'."]);
    assert_eq!(run(&mut table, "update 1"), vec!["Unrecognized keyword at start of 'update 1'"]);
    assert_eq!(run(&mut table, "selects"), vec!["Unrecognized keyword at start of 'selects'"]);
    assert_eq!(run(&mut table, ""), vec!["Unrecognized keyword at start of ''"]);
}

#[test]
fn syntax_errors() {
    let mut table = Table::new();
    for line in ["insert", "insert 1", "insert 1 a", "insert x a b", "insert 1.5 a b", "insertion 1 a b",
        "insert 99999999999 a b", "insert + a b"] {
        assert_eq!(run(&mut table, line), vec!["Syntax error. Could not parse statement."], "{}", line);
    }
    // more fields than three are passed over
    assert_eq!(run(&mut table, "insert 7 a b c d"), vec!["Executed successfully."]);
    assert_eq!(run(&mut table, "insert +8 a b"), vec!["Executed successfully."]);
    assert_eq!(run(&mut table, "insert -0 a b"), vec!["Executed successfully."]);
    assert_eq!(run(&mut table, "insert 2147483647 a b"), vec!["Executed successfully."]);
    assert_eq!(run(&mut table, "insert -2147483648 a b"), vec!["Error: ID must be positive."]);
    assert_eq!(run(&mut table, "insert 2147483648 a b"), vec!["Syntax error. Could not parse statement."]);
    assert_eq!(
        run(&mut table, "select"),
        vec!["(0, a, b)", "(7, a, b)", "(8, a, b)", "(2147483647, a, b)", "Executed successfully."]
    );
}

#[test]
fn white_space_around_a_line_is_passed_over() {
    let mut table = Table::new();
    let mut input = InputBuffer::new();
    input.take_line(&"select \t\n".to_string());
    assert_eq!(input.buffer, "select");
    assert_eq!(input.input_length, 6);
    input.buffer = "   select  ".to_string();
    assert!(matches!(
        prepare_statement(&input),
        PrepareResult::Success(Statement { statement_type: StatementType::Select, row_to_insert: None })
    ));
    input.buffer = "  insert   5\tname   mail@x  ".to_string();
    match prepare_statement(&input) {
        PrepareResult::Success(statement) => {
            assert_eq!(statement.statement_type, StatementType::Insert);
            let row = statement.row_to_insert.unwrap();
            assert_eq!(row.id, 5);
            assert_eq!(row.get_username(), "name");
            assert_eq!(row.get_email(), "mail@x");
            assert_eq!(&row.username[..5], b"name\0");
            assert!(row.email[6..].iter().all(|b| *b == 0));
        }
        _ => panic!("the line is an insert statement"),
    }
    // a line is a meta-command where its first character is a dot
    assert_eq!(run(&mut table, "  .btree "), vec!["Unrecognized keyword at start of '  .btree'"]);
    assert_eq!(run(&mut table, ".btree  "), vec!["Tree:", "- leaf (size 0)"]);
}

#[test]
fn fields_become_a_statement() {
    let fields = |v: &[&str]| v.iter().map(|s| s.to_string()).collect::<Vec<String>>();
    assert!(matches!(prepare_insert(&fields(&[])), PrepareResult::SyntaxError));
    assert!(matches!(prepare_insert(&fields(&[""])), PrepareResult::SyntaxError));
    assert!(matches!(prepare_insert(&fields(&["1", "a"])), PrepareResult::SyntaxError));
    assert!(matches!(prepare_insert(&fields(&["1", "", "b"])), PrepareResult::SyntaxError));
    assert!(matches!(prepare_insert(&fields(&["-5", "a", "b"])), PrepareResult::NegativeId));
    // the id is looked at before the lengths
    let long = "x".repeat(40);
    assert!(matches!(prepare_insert(&fields(&["-5", &long, "b"])), PrepareResult::NegativeId));
    assert!(matches!(prepare_insert(&fields(&["5", &long, "b"])), PrepareResult::StringTooLong));
    // the length is counted in bytes
    let wide = "é".repeat(17);
    assert!(matches!(prepare_insert(&fields(&["5", &wide, "b"])), PrepareResult::StringTooLong));
    let wide = "é".repeat(16);
    match prepare_insert(&fields(&["5", &wide, "b"])) {
        PrepareResult::Success(statement) => {
            let row = statement.row_to_insert.unwrap();
            assert_eq!(row.get_username(), wide);
        }
        _ => panic!("thirty-two bytes fit"),
    }
}

#[test]
fn insert_without_a_row_finds_the_table_full() {
    let mut table = Table::new();
    let statement = Statement { statement_type: StatementType::Insert, row_to_insert: None };
    let (result, rows) = execute_statement(&statement, &mut table);
    assert_eq!(result, ExecuteResult::TableFull);
    assert!(rows.is_empty());
    assert_eq!(execute_message(result), "Error: Table full.");
}
