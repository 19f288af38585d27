use nvim_bot::resolve::{
    answer, ex_help, exact_reply, help_url, nearest_reply, not_found, resolve, strip_trigger,
    Policy, TRIGGER,
};
use nvim_bot::table::TagTable;
use nvim_bot::tagfile::parse_tags;

fn table_of(pairs: &[(&str, &str)]) -> TagTable {
    let mut table = TagTable::new();
    for (tag, file) in pairs {
        table.insert(tag.to_string(), file.to_string());
    }
    table
}

#[test]
fn trigger_is_bang_h_space() {
    assert_eq!(TRIGGER, "!h ");
}

#[test]
fn no_reply_without_the_trigger() {
    let table = table_of(&[("hello", "f"), ("", "g"), ("!h", "h")]);
    for message in ["", "hello", "!hello", "!h", "!H x", " !h hello", "h hello", "!h\thello", "! h x", "?h x"] {
        assert_eq!(resolve(message, &table, Policy::Exact), None, "message {:?}", message);
        assert_eq!(resolve(message, &table, Policy::Nearest), None, "message {:?}", message);
    }
    assert_eq!(resolve("hello", &TagTable::new(), Policy::Exact), None);
}

#[test]
fn exact_match_gives_the_url_of_a_present_tag() {
    let table = parse_tags(":q editing.txt\n:wq editing.txt\n'ai' options.txt\n").unwrap();
    for (tag, file) in [(":q", "editing"), (":wq", "editing"), ("'ai'", "options")] {
        assert_eq!(
            resolve(&format!("!h {}", tag), &table, Policy::Exact),
            Some(format!("https://neovim.io/doc/user/{}.html#{}", file, tag))
        );
    }
}

#[test]
fn exact_match_says_so_for_an_absent_tag() {
    let table = table_of(&[("a", "f1"), ("c", "f2")]);
    assert_eq!(resolve("!h b", &table, Policy::Exact), Some("No help found for b!".to_string()));
    assert_eq!(resolve("!h z", &table, Policy::Exact), Some("No help found for z!".to_string()));
    assert_eq!(
        resolve("!h :wq", &TagTable::new(), Policy::Exact),
        Some("No help found for :wq!".to_string())
    );
}

#[test]
fn nearest_match_between_two_tags() {
    let table = table_of(&[("a", "f1"), ("c", "f2")]);
    assert_eq!(
        resolve("!h b", &table, Policy::Nearest),
        Some("https://neovim.io/doc/user/f2.html#c".to_string())
    );
}

#[test]
fn nearest_match_after_all_tags() {
    let table = table_of(&[("a", "f1"), ("c", "f2")]);
    assert_eq!(
        resolve("!h z", &table, Policy::Nearest),
        Some("https://neovim.io/doc/user/f2.html#c".to_string())
    );
}

#[test]
fn nearest_match_of_a_present_tag_is_the_tag() {
    let table = table_of(&[("a", "f1"), ("c", "f2")]);
    assert_eq!(
        resolve("!h a", &table, Policy::Nearest),
        Some("https://neovim.io/doc/user/f1.html#a".to_string())
    );
    assert_eq!(resolve("!h a", &table, Policy::Nearest), resolve("!h a", &table, Policy::Exact));
    assert_eq!(resolve("!h c", &table, Policy::Nearest), resolve("!h c", &table, Policy::Exact));
}

#[test]
fn nearest_match_on_an_empty_table() {
    assert_eq!(
        resolve("!h :wq", &TagTable::new(), Policy::Nearest),
        Some("No help found for :wq!".to_string())
    );
}

#[test]
fn resolving_twice_gives_the_same_reply() {
    let table = table_of(&[("a", "f1"), ("c", "f2")]);
    for message in ["!h a", "!h b", "!h z", "!h ", "nothing", "!h   c  "] {
        for policy in [Policy::Exact, Policy::Nearest] {
            let first = resolve(message, &table, policy);
            let second = resolve(message, &table, policy);
            assert_eq!(first, second);
        }
    }
}

#[test]
fn end_to_end_wq() {
    let table = parse_tags(":wq editing.txt\n").unwrap();
    let expected = Some("https://neovim.io/doc/user/editing.html#:wq".to_string());
    assert_eq!(resolve("!h :wq", &table, Policy::Exact), expected);
    assert_eq!(resolve("!h :wq", &table, Policy::Nearest), expected);
}

#[test]
fn query_is_trimmed() {
    let table = table_of(&[(":wq", "editing")]);
    let expected = Some("https://neovim.io/doc/user/editing.html#:wq".to_string());
    assert_eq!(resolve("!h  :wq", &table, Policy::Exact), expected);
    assert_eq!(resolve("!h :wq   ", &table, Policy::Exact), expected);
    assert_eq!(resolve("!h \t:wq\u{00A0}\n", &table, Policy::Exact), expected);
}

#[test]
fn inner_whitespace_stays_in_the_query() {
    let table = table_of(&[(":wq", "editing")]);
    assert_eq!(
        resolve("!h :w q", &table, Policy::Exact),
        Some("No help found for :w q!".to_string())
    );
}

#[test]
fn empty_query() {
    let table = table_of(&[("a", "f1"), ("c", "f2")]);
    assert_eq!(resolve("!h ", &table, Policy::Exact), Some("No help found for !".to_string()));
    assert_eq!(resolve("!h    ", &table, Policy::Exact), Some("No help found for !".to_string()));
    assert_eq!(
        resolve("!h ", &table, Policy::Nearest),
        Some("https://neovim.io/doc/user/f1.html#a".to_string())
    );
}

#[test]
fn strip_trigger_gives_the_rest() {
    assert_eq!(strip_trigger("!h :wq"), Some(":wq"));
    assert_eq!(strip_trigger("!h  :wq "), Some(" :wq "));
    assert_eq!(strip_trigger("!h "), Some(""));
    assert_eq!(strip_trigger("!h \u{e9}\u{4e16}"), Some("\u{e9}\u{4e16}"));
    assert_eq!(strip_trigger("!h"), None);
    assert_eq!(strip_trigger("!hello"), None);
    assert_eq!(strip_trigger(""), None);
    assert_eq!(strip_trigger("\u{e9}h "), None);
}

#[test]
fn strip_trigger_agrees_with_std_strip_prefix() {
    for message in ["", "!", "!h", "!h ", "!h x", "!hx", " !h x", "!h !h x", "\u{4e16}!h x"] {
        assert_eq!(strip_trigger(message), message.strip_prefix("!h "));
    }
}

#[test]
fn ex_help_trims_both_sides() {
    assert_eq!(ex_help(":wq"), ":wq");
    assert_eq!(ex_help("  :wq"), ":wq");
    assert_eq!(ex_help(":wq \t\r\n"), ":wq");
    assert_eq!(ex_help(" \u{3000}:w q\u{00A0} "), ":w q");
    assert_eq!(ex_help(""), "");
    assert_eq!(ex_help("   "), "");
    assert_eq!(ex_help(" \u{e9} "), "\u{e9}");
    assert_eq!(ex_help("x"), "x");
}

#[test]
fn ex_help_agrees_with_std_trim() {
    for s in ["", " ", "a", " a", "a ", " a b ", "\n\ta\u{2003}b\u{2028}", "\u{200B} a \u{200B}", "\u{1680}\u{4e16}\u{205F}"] {
        assert_eq!(ex_help(s), s.trim());
    }
}

#[test]
fn help_url_text() {
    assert_eq!(help_url("editing", ":wq"), "https://neovim.io/doc/user/editing.html#:wq");
    assert_eq!(help_url("", ""), "https://neovim.io/doc/user/.html#");
    assert_eq!(help_url("options", "'ai'"), "https://neovim.io/doc/user/options.html#'ai'");
}

#[test]
fn not_found_reply_text() {
    assert_eq!(not_found(":wq"), "No help found for :wq!");
    assert_eq!(not_found(""), "No help found for !");
}

#[test]
fn exact_reply_for_present_and_absent_tags() {
    let table = table_of(&[("a", "f1"), ("c", "f2")]);
    assert_eq!(exact_reply(&table, "a"), "https://neovim.io/doc/user/f1.html#a");
    assert_eq!(exact_reply(&table, "c"), "https://neovim.io/doc/user/f2.html#c");
    assert_eq!(exact_reply(&table, "b"), "No help found for b!");
}

#[test]
fn nearest_reply_names_the_tag_it_found() {
    let table = table_of(&[("a", "f1"), ("c", "f2")]);
    assert_eq!(nearest_reply(&table, "b"), "https://neovim.io/doc/user/f2.html#c");
    assert_eq!(nearest_reply(&table, "z"), "https://neovim.io/doc/user/f2.html#c");
    assert_eq!(nearest_reply(&table, "0"), "https://neovim.io/doc/user/f1.html#a");
    assert_eq!(nearest_reply(&TagTable::new(), "b"), "No help found for b!");
}

#[test]
fn answer_follows_the_policy() {
    let table = table_of(&[("a", "f1"), ("c", "f2")]);
    assert_eq!(answer(&table, "b", Policy::Exact), exact_reply(&table, "b"));
    assert_eq!(answer(&table, "b", Policy::Nearest), nearest_reply(&table, "b"));
    assert_ne!(answer(&table, "b", Policy::Exact), answer(&table, "b", Policy::Nearest));
}

#[test]
fn default_policy_is_exact() {
    assert_eq!(Policy::default(), Policy::Exact);
}
