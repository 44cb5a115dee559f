use askbend::db::current_timestamp;
use askbend::escape_sql_string;
use askbend::DatabendDriver;

fn recorder(answer_table: &str) -> DatabendDriver {
    DatabendDriver::new(
        "askbend".to_string(),
        "doc".to_string(),
        answer_table.to_string(),
        10,
        8000,
        3,
        "Databend".to_string(),
        "{{query}}".to_string(),
    )
}

fn is_timestamp_shaped(ts: &str) -> bool {
    let bytes: Vec<char> = ts.chars().collect();
    if bytes.len() != 19 {
        return false;
    }
    for (i, c) in bytes.iter().enumerate() {
        let ok = match i {
            4 | 7 => *c == '-',
            10 => *c == ' ',
            13 | 16 => *c == ':',
            _ => c.is_ascii_digit(),
        };
        if !ok {
            return false;
        }
    }
    true
}

#[test]
fn escape_leaves_plain_text_alone() {
    assert_eq!(escape_sql_string("hello world"), "hello world");
    assert_eq!(escape_sql_string(""), "");
}

#[test]
fn escape_neutralizes_quotes_and_backslashes() {
    assert_eq!(escape_sql_string("a'b"), "a\\'b");
    assert_eq!(escape_sql_string("a\\b"), "a\\\\b");
    assert_eq!(escape_sql_string("'; DROP TABLE x; --"), "\\'; DROP TABLE x; --");
    assert_eq!(escape_sql_string("\\'"), "\\\\\\'");
}

#[test]
fn disabled_logging_builds_no_statement() {
    let driver = recorder("");
    let distances = vec!["0.1".to_string()];
    let sql = driver.insert_answer_sql("q", "p", &distances, "sec", "ans");
    assert!(sql.is_none());
}

#[test]
fn insert_statement_has_expected_shape() {
    let driver = recorder("query_log");
    let distances = vec!["0.1".to_string(), "0.2".to_string()];
    let sql = driver
        .insert_answer_sql("q", "p", &distances, "sec", "ans")
        .expect("logging is enabled");
    let prefix = "INSERT INTO askbend.query_log (question, prompt, similar_distances, \
                  similar_sections, answer, ts) VALUES ('q','p', [0.1, 0.2], 'sec', 'ans', '";
    let suffix = "')";
    assert!(sql.starts_with(prefix), "unexpected statement: {sql}");
    assert!(sql.ends_with(suffix));
    let ts = &sql[prefix.len()..sql.len() - suffix.len()];
    assert!(is_timestamp_shaped(ts), "unexpected timestamp: {ts}");
}

#[test]
fn statement_with_fixed_timestamp_is_exact() {
    let driver = recorder("answers");
    let distances = vec!["0.28".to_string()];
    let sql = driver.build_insert_answer_sql(
        "what is a stage?",
        "answer briefly",
        &distances,
        "stages hold files",
        "a place for files",
        "2024-03-07 09:05:30",
    );
    assert_eq!(
        sql,
        "INSERT INTO askbend.answers (question, prompt, similar_distances, similar_sections, \
         answer, ts) VALUES ('what is a stage?','answer briefly', [0.28], 'stages hold files', \
         'a place for files', '2024-03-07 09:05:30')"
    );
}

#[test]
fn statement_escapes_embedded_values() {
    let driver = recorder("answers");
    let distances: Vec<String> = Vec::new();
    let sql = driver.build_insert_answer_sql(
        "it's",
        "p",
        &distances,
        "a\\b",
        "don't",
        "2024-01-01 00:00:00",
    );
    assert_eq!(
        sql,
        "INSERT INTO askbend.answers (question, prompt, similar_distances, similar_sections, \
         answer, ts) VALUES ('it\\'s','p', [], 'a\\\\b', 'don\\'t', '2024-01-01 00:00:00')"
    );
}

#[test]
fn current_timestamp_is_second_precision_text() {
    let ts = current_timestamp();
    assert!(is_timestamp_shaped(&ts), "unexpected timestamp: {ts}");
}
