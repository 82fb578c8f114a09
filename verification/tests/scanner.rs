use hybrid_mount::scanner::{describe, read_prop, scan_modules, ModuleEntry};
use hybrid_mount::text::{
    byte_len_capped, contains_string, ends_with, has_substring, join, lines, sorted_unique,
    split_on, split_once, starts_with, str_lt, to_chars, trim_char, without_first,
};

fn strings(v: &[&str]) -> Vec<String> {
    v.iter().map(|s| s.to_string()).collect()
}

const PROP: &str = "id=sample\nname = Sample Module \r\nversion=v1.2\nversionCode=12\ndescription=Does = things\nauthor=me\n";

fn module(id: &str, prop: Option<&str>) -> ModuleEntry {
    ModuleEntry {
        id: id.to_string(),
        is_dir: true,
        has_prop: true,
        prop: prop.map(|s| s.to_string()),
        has_system: true,
        disabled: false,
        removed: false,
        skip_mount: false,
    }
}

#[test]
fn read_prop_takes_the_first_matching_line() {
    assert_eq!(read_prop(PROP, "name"), Some("Sample Module".to_string()));
    assert_eq!(read_prop(PROP, "version"), Some("v1.2".to_string()));
    assert_eq!(read_prop(PROP, "versionCode"), Some("12".to_string()));
    assert_eq!(read_prop(PROP, "description"), Some("Does = things".to_string()));
    assert_eq!(read_prop(PROP, "missing"), None);
    assert_eq!(read_prop("", "name"), None);
}

#[test]
fn read_prop_skips_lines_without_equals() {
    assert_eq!(read_prop("name\nname=real", "name"), Some("real".to_string()));
    assert_eq!(read_prop("name", "name"), None);
    assert_eq!(read_prop("name=", "name"), Some("".to_string()));
    assert_eq!(read_prop("named=x", "name"), Some("x".to_string()));
}

#[test]
fn describe_falls_back_to_id_and_unknown() {
    let full = describe(&module("sample", Some(PROP)));
    assert_eq!(full.id, "sample");
    assert_eq!(full.name, "Sample Module");
    assert_eq!(full.version, "v1.2");
    assert_eq!(full.description, "Does = things");
    assert!(!full.disabled);
    assert!(!full.skip);
    let bare = describe(&module("bare", Some("id=bare\n")));
    assert_eq!(bare.name, "bare");
    assert_eq!(bare.version, "unknown");
    assert_eq!(bare.description, "unknown");
    let unreadable = describe(&module("dark", None));
    assert_eq!(unreadable.name, "dark");
    assert_eq!(unreadable.version, "unknown");
}

#[test]
fn scan_modules_lists_mountable_modules_sorted() {
    let mut disabled = module("disabled", Some(PROP));
    disabled.disabled = true;
    let mut removed = module("removed", Some(PROP));
    removed.removed = true;
    let mut skipped = module("skipped", Some(PROP));
    skipped.skip_mount = true;
    let mut no_prop = module("no_prop", None);
    no_prop.has_prop = false;
    let mut no_system = module("no_system", Some(PROP));
    no_system.has_system = false;
    let mut plain_file = module("file", Some(PROP));
    plain_file.is_dir = false;
    let entries = vec![
        module("zeta", Some("name=Z\n")),
        disabled,
        module("alpha", Some("name=A\n")),
        removed,
        skipped,
        no_prop,
        module("Beta", None),
        no_system,
        plain_file,
        module("alpha", Some("name=second\n")),
    ];
    let r = scan_modules(&entries);
    let seen: Vec<(String, String)> = r.iter().map(|m| (m.id.clone(), m.name.clone())).collect();
    let expected: Vec<(String, String)> =
        [("Beta", "Beta"), ("alpha", "A"), ("alpha", "second"), ("zeta", "Z")]
            .iter()
            .map(|(a, b)| (a.to_string(), b.to_string()))
            .collect();
    assert_eq!(seen, expected);
    assert!(scan_modules(&vec![]).is_empty());
}

#[test]
fn lines_follow_the_usual_rules() {
    assert_eq!(lines("a\nb\r\nc"), strings(&["a", "b", "c"]));
    assert_eq!(lines("a\n"), strings(&["a"]));
    assert_eq!(lines("a\n\n"), strings(&["a", ""]));
    assert_eq!(lines(""), Vec::<String>::new());
    assert_eq!(lines("\n"), strings(&[""]));
    assert_eq!(lines("a\rb\r"), strings(&["a\rb\r"]));
    assert_eq!(lines("a\r\r\n"), strings(&["a\r"]));
    for text in ["x\ny\r\n\r\nz\r", "\r\n", "one", "\n\na"] {
        let expected: Vec<String> = text.lines().map(|l| l.to_string()).collect();
        assert_eq!(lines(text), expected);
    }
}

#[test]
fn splitting_texts() {
    assert_eq!(split_once("key=value=more", '='), Some(("key".to_string(), "value=more".to_string())));
    assert_eq!(split_once("=v", '='), Some(("".to_string(), "v".to_string())));
    assert_eq!(split_once("k=", '='), Some(("k".to_string(), "".to_string())));
    assert_eq!(split_once("none", '='), None);
    assert_eq!(split_on("a,b,,c", ','), strings(&["a", "b", "", "c"]));
    assert_eq!(split_on("", ','), strings(&[""]));
    assert_eq!(split_on("a,", ','), strings(&["a", ""]));
    assert_eq!(split_on(",", ','), strings(&["", ""]));
}

#[test]
fn searching_texts() {
    assert!(starts_with("/vendor/lib", "/vendor"));
    assert!(starts_with("abc", ""));
    assert!(!starts_with("/ven", "/vendor"));
    assert!(!starts_with("x/vendor", "/vendor"));
    assert!(ends_with("libfoo.so", ".so"));
    assert!(!ends_with("libfoo.so.1", ".so"));
    assert!(!ends_with("so", ".so"));
    assert!(has_substring("/vendor/lib64/hw", "/lib64/"));
    assert!(has_substring("abc", "c"));
    assert!(has_substring("abc", ""));
    assert!(!has_substring("/vendor/lib", "/lib/"));
    assert!(!has_substring("ab", "abc"));
}

#[test]
fn trimming_one_character() {
    assert_eq!(trim_char("\0\0u:r:s0\0", '\0'), "u:r:s0");
    assert_eq!(trim_char("a\0b", '\0'), "a\0b");
    assert_eq!(trim_char("\0\0", '\0'), "");
    assert_eq!(trim_char("", '\0'), "");
    assert_eq!(trim_char("xxaxx", 'x'), "a");
}

#[test]
fn ordering_and_sets_of_strings() {
    let a = |s: &str| s.to_string();
    assert!(str_lt(&a("a"), &a("b")));
    assert!(str_lt(&a(""), &a("a")));
    assert!(str_lt(&a("ab"), &a("abc")));
    assert!(str_lt(&a("Z"), &a("a")));
    assert!(!str_lt(&a("a"), &a("a")));
    assert!(!str_lt(&a("b"), &a("a")));
    assert!(str_lt(&a("z"), &a("\u{e9}")));
    let mixed = strings(&["b", "a", "c", "a", "", "B", "ab", "b"]);
    let mut expected = mixed.clone();
    expected.sort();
    expected.dedup();
    assert_eq!(sorted_unique(&mixed), expected);
    assert!(contains_string(&mixed, &a("ab")));
    assert!(!contains_string(&mixed, &a("abc")));
}

#[test]
fn joining_and_measuring() {
    assert_eq!(join(&strings(&["a", "b", "c"]), ":"), "a:b:c");
    assert_eq!(join(&strings(&["only"]), ":"), "only");
    assert_eq!(join(&vec![], ":"), "");
    assert_eq!(join(&strings(&["", ""]), ", "), ", ");
    assert_eq!(to_chars("h\u{e9}"), vec!['h', '\u{e9}']);
    assert_eq!(byte_len_capped(&"abc".to_string(), 10), 3);
    assert_eq!(byte_len_capped(&"h\u{e9}\u{4e2d}\u{1f600}".to_string(), 100), 10);
    assert_eq!(byte_len_capped(&"abcdef".to_string(), 5), 6);
    assert_eq!(byte_len_capped(&"abcde".to_string(), 5), 5);
    assert_eq!(byte_len_capped(&"\u{1f600}\u{1f600}".to_string(), 5), 6);
}

#[test]
fn first_occurrence_is_taken_out() {
    assert_eq!(without_first("/system/apex/foo", "/system"), "/apex/foo");
    assert_eq!(without_first("/a/system/system", "/system"), "/a/system");
    assert_eq!(without_first("/vendor", "/system"), "/vendor");
    assert_eq!(without_first("abc", ""), "abc");
    assert_eq!(without_first("", "x"), "");
    assert_eq!(without_first("xx", "xx"), "");
    assert_eq!(without_first("aab", "ab"), "a");
    for (s, p) in [("/system/system", "/system"), ("banana", "an"), ("\u{e9}t\u{e9}", "\u{e9}"), ("a", "abc")] {
        assert_eq!(without_first(s, p), s.replacen(p, "", 1));
    }
}
