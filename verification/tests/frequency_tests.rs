use japannik::frequency::{freq_column_name, parse_frequency_table, FREQ_COLUMN_COUNT};

fn line(word: &str, values: &[&str]) -> String {
    let mut fields = vec![word.to_string()];
    fields.extend(values.iter().map(|v| v.to_string()));
    fields.join("\t")
}

#[test]
fn rows_skip_header_and_short_lines() {
    let values: Vec<String> = (1..=18).map(|i| (i * 10).to_string()).collect();
    let vals: Vec<&str> = values.iter().map(|s| s.as_str()).collect();
    let mut bad = vals.clone();
    bad[4] = "x";
    let content = format!(
        "{}\n{}\n{}\n{}\n",
        line("word", &vals),
        line("海賊", &vals),
        line("短い", &vals[..10]),
        line("飲む", &bad),
    );
    let rows = parse_frequency_table(&content);
    assert_eq!(rows.len(), 2);
    assert_eq!(rows[0].word, "海賊");
    assert_eq!(
        rows[0].counts,
        vec![10, 40, 50, 60, 70, 80, 90, 100, 110, 120, 130, 140, 150, 160, 170, 180]
    );
    assert_eq!(rows[1].word, "飲む");
    assert_eq!(rows[1].counts[0], 10);
    assert_eq!(rows[1].counts[2], 0);
    assert!(parse_frequency_table("").is_empty());
    assert!(parse_frequency_table("header only").is_empty());
}

#[test]
fn column_names() {
    assert_eq!(FREQ_COLUMN_COUNT, 16);
    assert_eq!(freq_column_name(0), "freq_total");
    assert_eq!(freq_column_name(9), "freq_film");
    assert_eq!(freq_column_name(15), "freq_pets");
}
