use includecost::compdb::split_command;
use includecost::fs::normalize;
use includecost::json::{parse, quote, Value};
use includecost::scan::scan;
use includecost::{MemFs, SourceProvider};

#[test]
fn splits_like_a_shell() {
    let words = split_command(r#"c++ -I"dir with space" -I 'q d' -DX=\"y\" a\ b.cpp"#);
    assert_eq!(
        words,
        ["c++", "-Idir with space", "-I", "q d", "-DX=\"y\"", "a b.cpp"]
    );
}

#[test]
fn normalize_folds_dots() {
    assert_eq!(normalize("/a/./b/../c.h"), "/a/c.h");
    assert_eq!(normalize("/../x"), "/x");
    assert_eq!(normalize("../x/./y"), "../x/y");
    assert_eq!(normalize("a/.."), ".");
}

#[test]
fn memfs_lookups_are_normalized() {
    let mut fs = MemFs::new();
    fs.insert("/p/include/../src/a.h", b"x");
    assert!(fs.is_file("/p/src/./a.h"));
    assert_eq!(fs.read("/p/src/a.h"), Some(b"x".to_vec()));
    fs.remove("/p/src/a.h");
    assert!(fs.is_empty());
}

#[test]
fn parses_nested_documents() {
    let v = parse(r#" [ {"a": "x\"y\u00e9\ud83d\ude00", "b": [1, -2.5e1, true, null]} ] "#).unwrap();
    let obj = &v.as_array().unwrap()[0];
    assert_eq!(obj.get("a").unwrap().as_str().unwrap(), "x\"y\u{e9}\u{1F600}");
    let b = obj.get("b").unwrap().as_array().unwrap();
    let n: f64 = b[1].as_number().unwrap().parse().unwrap();
    assert_eq!(n, -25.0);
    assert_eq!(b[2], Value::Bool(true));
    assert_eq!(b[3], Value::Null);
}

#[test]
fn rejects_malformed_input() {
    for bad in [
        "",
        "[",
        "{\"a\" 1}",
        "[1,]",
        "\"abc",
        "[1] x",
        "{\"a\":\"\\q\"}",
        "\"\\ud800\"",
    ] {
        assert!(parse(bad).is_err(), "accepted {bad:?}");
    }
    let deep = "[".repeat(1000);
    assert!(parse(&deep).is_err());
}

#[test]
fn quote_round_trips() {
    let s = "a\"b\\c\nd\u{1}é";
    assert_eq!(parse(&quote(s)).unwrap().as_str().unwrap(), s);
}

#[test]
fn weight_ignores_comments_and_blank_lines() {
    let src = b"// header comment\n\nint a;   \n/* block\n comment */\n  int b; // trailing\n";
    let f = scan(src);
    assert_eq!(f.weight, 14);
}

#[test]
fn comment_markers_inside_literals_are_code() {
    let f = scan(b"const char* s = \"// not a comment /*\";\nchar c = '/';\n");
    assert_eq!(
        f.weight,
        ("const char* s = \"// not a comment /*\";".len() + 1 + "char c = '/';".len() + 1) as u64
    );
}

#[test]
fn raw_strings_and_digit_separators() {
    let src = b"auto r = R\"x(/* keep */ \" // keep)x\";\nint big = 1'000'000; // gone\n";
    let f = scan(src);
    let expected =
        "auto r = R\"x(/* keep */ \" // keep)x\";".len() + 1 + "int big = 1'000'000;".len() + 1;
    assert_eq!(f.weight, expected as u64);
}

#[test]
fn line_splices_join_directives() {
    let f = scan(b"#include \\\n  \"spliced.h\"\n#  include <sys/x.h> // c\n#include CONFIG\n");
    assert_eq!(f.includes.len(), 2);
    assert_eq!(f.includes[0].spelling, "spliced.h");
    assert_eq!(f.includes[0].line, 1);
    assert!(!f.includes[0].angled);
    assert_eq!(f.includes[1].spelling, "sys/x.h");
    assert_eq!(f.includes[1].line, 3);
    assert!(f.includes[1].angled);
    assert_eq!(f.computed_includes, vec![4]);
}

#[test]
fn include_inside_comment_is_ignored() {
    let f = scan(b"/*\n#include \"a.h\"\n*/\n// #include \"b.h\"\n");
    assert!(f.includes.is_empty());
}
