use nvim_bot::table::TagEntry;
use nvim_bot::tagfile::{parse_line, parse_tags, MalformedLine};
use nvim_bot::text::chars_of;
use std::collections::BTreeMap;

fn pairs(text: &str) -> Result<Vec<(String, String)>, MalformedLine> {
    let table = parse_tags(text)?;
    Ok(table.entries().iter().map(|e| (e.tag.clone(), e.file.clone())).collect())
}

fn owned(list: &[(&str, &str)]) -> Vec<(String, String)> {
    list.iter().map(|(t, f)| (t.to_string(), f.to_string())).collect()
}

fn by_std(text: &str) -> Result<Vec<(String, String)>, MalformedLine> {
    let mut map: BTreeMap<String, String> = BTreeMap::new();
    for (i, line) in text.lines().enumerate() {
        if line.is_empty() {
            continue;
        }
        let tokens: Vec<&str> = line.split_whitespace().collect();
        if tokens.len() < 2 {
            return Err(MalformedLine { line: i + 1 });
        }
        let file = tokens[1].strip_suffix(".txt").unwrap_or(tokens[1]);
        map.insert(tokens[0].to_string(), file.to_string());
    }
    Ok(map.into_iter().collect())
}

#[test]
fn parse_one_record() {
    assert_eq!(pairs(":wq editing.txt\n"), Ok(owned(&[(":wq", "editing")])));
}

#[test]
fn parse_without_final_line_feed() {
    assert_eq!(pairs(":wq editing.txt"), Ok(owned(&[(":wq", "editing")])));
}

#[test]
fn parse_empty_text() {
    assert_eq!(pairs(""), Ok(owned(&[])));
    assert_eq!(pairs("\n"), Ok(owned(&[])));
    assert_eq!(pairs("\n\n\r\n"), Ok(owned(&[])));
}

#[test]
fn parse_several_records_in_tag_order() {
    let text = ":wq\tediting.txt\n:q\tediting.txt\n'ai'\toptions.txt\nCTRL-W_o\twindows.txt\n";
    assert_eq!(
        pairs(text),
        Ok(owned(&[
            ("'ai'", "options"),
            (":q", "editing"),
            (":wq", "editing"),
            ("CTRL-W_o", "windows"),
        ]))
    );
}

#[test]
fn parse_strips_only_the_suffix() {
    assert_eq!(pairs("a a.txt.txt"), Ok(owned(&[("a", "a.txt")])));
    assert_eq!(pairs("a x.txtfoo"), Ok(owned(&[("a", "x.txtfoo")])));
    assert_eq!(pairs("a .txt"), Ok(owned(&[("a", "")])));
    assert_eq!(pairs("a txt"), Ok(owned(&[("a", "txt")])));
    assert_eq!(pairs("a b.TXT"), Ok(owned(&[("a", "b.TXT")])));
    assert_eq!(pairs("a.txt b"), Ok(owned(&[("a.txt", "b")])));
}

#[test]
fn parse_passes_over_further_words() {
    assert_eq!(pairs(":wq editing.txt /*:wq*\n"), Ok(owned(&[(":wq", "editing")])));
}

#[test]
fn parse_takes_any_whitespace_between_fields() {
    assert_eq!(pairs("  a \t\u{00A0} f1.txt  \n\tb\u{3000}f2\n"), Ok(owned(&[("a", "f1"), ("b", "f2")])));
}

#[test]
fn parse_takes_carriage_return_line_feed() {
    assert_eq!(pairs("a f1.txt\r\nb f2.txt\r\n"), Ok(owned(&[("a", "f1"), ("b", "f2")])));
    assert_eq!(pairs("a f1.txt\r\n\r\nb f2.txt"), Ok(owned(&[("a", "f1"), ("b", "f2")])));
}

#[test]
fn parse_passes_over_empty_lines() {
    assert_eq!(pairs("\na f1\n\n\nb f2\n\n"), Ok(owned(&[("a", "f1"), ("b", "f2")])));
}

#[test]
fn parse_later_record_replaces_earlier() {
    assert_eq!(pairs("a f1\nb f2\na f3\n"), Ok(owned(&[("a", "f3"), ("b", "f2")])));
}

#[test]
fn parse_rejects_a_line_with_one_word() {
    assert_eq!(pairs("a f1\nlonely\nb f2\n"), Err(MalformedLine { line: 2 }));
    assert_eq!(pairs("lonely"), Err(MalformedLine { line: 1 }));
    assert_eq!(pairs("  lonely  \n"), Err(MalformedLine { line: 1 }));
}

#[test]
fn parse_rejects_a_line_of_whitespace() {
    assert_eq!(pairs("a f1\n   \nb f2\n"), Err(MalformedLine { line: 2 }));
    assert_eq!(pairs("\t"), Err(MalformedLine { line: 1 }));
    assert_eq!(pairs("a f1\n\r"), Err(MalformedLine { line: 2 }));
}

#[test]
fn parse_reports_the_first_malformed_line() {
    assert_eq!(pairs("\n\na f1\nx\ny\n"), Err(MalformedLine { line: 4 }));
}

#[test]
fn parse_counts_empty_lines() {
    assert_eq!(pairs("\n\n\nx"), Err(MalformedLine { line: 4 }));
    assert_eq!(pairs("a b\r\n\r\nx\r\n"), Err(MalformedLine { line: 3 }));
}

#[test]
fn parse_agrees_with_std_lines_and_split_whitespace() {
    let texts = [
        "",
        "\n",
        "a b",
        "a b\n",
        "a b\r\n",
        "a b\r",
        "a b\n\r",
        "a b\r\r\n",
        "\r\na b",
        "a b.txt c d\nz y.txt\nm n\n",
        "b 2\na 1\nb 3\n",
        " \n",
        "a\n",
        "a b\n\nc\n",
        "a\u{2028}b\n",
        "a\u{000B}b.txt\u{000C}c\n",
        "x y.txt\n\n\n q\tr.txt.txt \n",
        "\u{e9} \u{4e16}.txt\n",
    ];
    for text in texts {
        assert_eq!(pairs(text), by_std(text), "text {:?}", text);
    }
}

#[test]
fn parse_line_reads_tag_and_document() {
    assert_eq!(
        parse_line(&chars_of(":wq editing.txt")),
        Some(TagEntry { tag: ":wq".to_string(), file: "editing".to_string() })
    );
    assert_eq!(
        parse_line(&chars_of("\t'ai'   options.txt   more")),
        Some(TagEntry { tag: "'ai'".to_string(), file: "options".to_string() })
    );
}

#[test]
fn parse_line_needs_two_words() {
    assert_eq!(parse_line(&chars_of("")), None);
    assert_eq!(parse_line(&chars_of("   ")), None);
    assert_eq!(parse_line(&chars_of("one")), None);
    assert_eq!(parse_line(&chars_of(" one ")), None);
}
