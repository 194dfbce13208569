use includecost::analyze::{analyze, closure_weights, summarize, tu_costs, Accum, Options};
use includecost::compdb::{parse_compile_commands, search_paths_from_args, CompileCommand, SearchPaths};
use includecost::fs::{join, normalize, parent};
use includecost::generate::{generate, GenConfig, Rng};
use includecost::json::{parse, quote, Value};
use includecost::project::Project;
use includecost::report::{display_path, human_bytes, json_report, text_report};
use includecost::resolve::{candidate_paths, candidates, first_found};
use includecost::scan::{scan, Guard};
use includecost::{Analysis, HeaderCost, MemFs};

fn header(path: &str, exclusive: u64, inclusive: u64) -> HeaderCost {
    HeaderCost {
        path: path.to_string(),
        exclusive,
        inclusive,
        tus: 2,
        expansions: 3,
        conditional: true,
        guard: Guard::Unguarded,
        carries: vec![("/p/include/b.h".to_string(), 512)],
    }
}

fn analysis(headers: Vec<HeaderCost>) -> Analysis {
    Analysis {
        translation_units: 1,
        headers,
        total_bytes: 3072,
        unresolved: Vec::new(),
        missing_sources: Vec::new(),
        conditional_includes: 0,
        computed_includes: 0,
        unguarded_cycles: Vec::new(),
        truncated_tus: 0,
    }
}

#[test]
fn human_bytes_is_exact_below_a_kib_and_one_decimal_above() {
    assert_eq!(human_bytes(0), "0 B");
    assert_eq!(human_bytes(1023), "1023 B");
    assert_eq!(human_bytes(1024), "1.0 KiB");
    assert_eq!(human_bytes(1280), "1.2 KiB");
    assert_eq!(human_bytes(1536), "1.5 KiB");
    assert_eq!(human_bytes(1024 * 1024 - 1), "1024.0 KiB");
    assert_eq!(human_bytes(1024 * 1024), "1.0 MiB");
    assert_eq!(human_bytes(3 * 1024 * 1024 * 1024), "3.0 GiB");
    assert_eq!(human_bytes(1024u64.pow(4)), "1.0 TiB");
    assert_eq!(human_bytes(1024u64.pow(5)), "1024.0 TiB");
    assert_eq!(human_bytes(u64::MAX), "16777216.0 TiB");
}

#[test]
fn display_path_strips_the_base_by_components() {
    assert_eq!(display_path("/p/src/a.h", "/p"), "src/a.h");
    assert_eq!(display_path("/p/src/a.h", "/p/"), "src/a.h");
    assert_eq!(display_path("/pq/a.h", "/p"), "/pq/a.h");
    assert_eq!(display_path("/p/./src//a.h", "/p"), "src/a.h");
    assert_eq!(display_path("/p", "/p"), "");
}

#[test]
fn text_report_lays_out_a_ranked_table() {
    let a = analysis(vec![header("/p/include/a.h", 1536, 2048)]);
    let out = text_report(&a, 0, "/p", &vec![format!("{:>5.1}", 75.0)]);
    let mut expected = String::new();
    expected.push_str("1 translation units, 1 headers, 3.0 KiB preprocessed in total\n");
    expected.push_str(
        "0 unresolved includes, 0 conditional includes (treated as taken), 0 computed includes (skipped)\n\n",
    );
    expected.push_str(&format!("{:>4}  {:>10}  {:>10}  {:>6}  {:>5}  header\n", "rank", "exclusive", "inclusive", "excl%", "TUs"));
    expected.push_str(&format!(
        "{:>4}  {:>10}  {:>10}  {:>5.1}%  {:>5}  {}{}\n",
        1, "1.5 KiB", "2.0 KiB", 75.0, 2, "include/a.h", "  [unguarded, 3 expansions; conditional]"
    ));
    expected.push_str(&format!("{:>44}carries: include/b.h 512 B\n", ""));
    assert_eq!(out, expected);
}

#[test]
fn text_report_respects_top_and_lists_warnings() {
    let mut a = analysis(vec![header("/p/a.h", 20, 20), header("/p/b.h", 10, 10)]);
    a.unresolved = (0..12).map(|i| ("/p/a.cpp".to_string(), i, "x.h".to_string(), i % 2 == 0)).collect();
    a.missing_sources = vec!["/p/gone.cpp".to_string()];
    a.unguarded_cycles = vec![("/p/q.h".to_string(), "/p/p.h".to_string())];
    a.truncated_tus = 1;
    let out = text_report(&a, 1, "/p", &vec!["100.0".to_string()]);
    assert!(out.contains("... 1 more (use --top 0 for all)\n"));
    assert!(out.contains("\nunresolved includes:\n  a.cpp:0: <x.h>\n  a.cpp:1: \"x.h\"\n"));
    assert!(out.contains("  ... 2 more (see --json)\n"));
    assert!(out.contains("warning: source file not found, TU skipped: /p/gone.cpp\n"));
    assert!(out.contains("warning: include cycle through unguarded headers cut at q.h -> p.h\n"));
    assert!(out.ends_with("warning: 1 TUs exceeded the node limit; their costs are incomplete\n"));
    assert!(!out.contains("  b.h"));
}

#[test]
fn json_report_is_valid_json_with_exact_counts() {
    let mut a = analysis(vec![header("/p/include/a.h", 1536, 2048)]);
    a.unresolved = vec![("/p/a.cpp".to_string(), 4, "vec\"tor".to_string(), true)];
    a.missing_sources = vec!["/p/gone.cpp".to_string()];
    let out = json_report(&a, 0, "/p", &vec![format!("{:.6}", 0.75)]);
    let expected_header = "\n    {\"path\": \"include/a.h\", \"exclusive_bytes\": 1536, \"inclusive_bytes\": 2048, \"ratio\": 0.750000, \"tus\": 2, \"expansions\": 3, \"guard\": \"none\", \"conditional\": true, \"carries\": [{\"path\": \"include/b.h\", \"bytes\": 512}]}";
    assert!(out.contains(expected_header));
    let v = parse(&out).expect("valid JSON");
    assert_eq!(v.get("translation_units").and_then(Value::as_number), Some("1"));
    assert_eq!(v.get("total_bytes").and_then(Value::as_number), Some("3072"));
    let hs = v.get("headers").and_then(Value::as_array).unwrap();
    assert_eq!(hs[0].get("path").and_then(Value::as_str), Some("include/a.h"));
    let un = v.get("unresolved").and_then(Value::as_array).unwrap();
    assert_eq!(un[0].get("spelling").and_then(Value::as_str), Some("vec\"tor"));
    assert_eq!(un[0].get("angled"), Some(&Value::Bool(true)));
    let missing = v.get("missing_sources").and_then(Value::as_array).unwrap();
    assert_eq!(missing[0].as_str(), Some("/p/gone.cpp"));
    assert!(out.ends_with("\"truncated_tus\": 0\n}\n"));
}

#[test]
fn json_errors_name_the_line_and_the_fault() {
    assert_eq!(parse("[1,\n 2,\n x]").unwrap_err(), "invalid JSON at line 3: unexpected character");
    assert_eq!(parse("").unwrap_err(), "invalid JSON at line 1: unexpected end of input");
    assert_eq!(parse("{1: 2}").unwrap_err(), "invalid JSON at line 1: expected string key");
    assert_eq!(parse("{\"a\" 1}").unwrap_err(), "invalid JSON at line 1: expected ':'");
    assert_eq!(parse("[1 2]").unwrap_err(), "invalid JSON at line 1: expected ',' or ']'");
    assert_eq!(parse("{\"a\": 1 2}").unwrap_err(), "invalid JSON at line 1: expected ',' or '}'");
    assert_eq!(parse("\"abc").unwrap_err(), "invalid JSON at line 1: unterminated string");
    assert_eq!(parse("\"\\").unwrap_err(), "invalid JSON at line 1: unterminated escape");
    assert_eq!(parse("\"\\q\"").unwrap_err(), "invalid JSON at line 1: unknown escape");
    assert_eq!(parse("\"\\u12zz\"").unwrap_err(), "invalid JSON at line 1: bad \\u escape");
    assert_eq!(parse("\"\\u1").unwrap_err(), "invalid JSON at line 1: short \\u escape");
    assert_eq!(parse("\"\\ud800x\"").unwrap_err(), "invalid JSON at line 1: unpaired surrogate");
    assert_eq!(parse("\"a\u{1}\"").unwrap_err(), "invalid JSON at line 1: control character in string");
    assert_eq!(parse("1 2").unwrap_err(), "invalid JSON at line 1: trailing characters after JSON value");
    assert_eq!(parse("-").unwrap_err(), "invalid JSON at line 1: bad number");
    assert_eq!(parse("tru").unwrap_err(), "invalid JSON at line 1: unexpected character");
    assert_eq!(parse(&"[".repeat(300)).unwrap_err(), "invalid JSON at line 1: nesting too deep");
}

#[test]
fn json_numbers_and_escapes_decode() {
    assert_eq!(parse(" 1.5e3 ").unwrap(), Value::Number("1.5e3".to_string()));
    assert_eq!(parse("\"\\u00e9\\ud83d\\ude00\\n\"").unwrap(), Value::String("é\u{1F600}\n".to_string()));
    assert_eq!(parse("[]").unwrap(), Value::Array(Vec::new()));
    assert_eq!(
        parse("{\"k\": false}").unwrap(),
        Value::Object(vec![("k".to_string(), Value::Bool(false))])
    );
    assert_eq!(quote("a\u{1f}\t"), "\"a\\u001f\\t\"");
}

#[test]
fn paths_join_and_climb_lexically() {
    assert_eq!(join("/root/build", "../src/a.cpp"), "/root/build/../src/a.cpp");
    assert_eq!(join("/root", "/abs"), "/abs");
    assert_eq!(normalize(&join("/root/build", "../src/a.cpp")), "/root/src/a.cpp");
    assert_eq!(parent("/p/a.h"), Some("/p".to_string()));
    assert_eq!(parent("/"), None);
}

#[test]
fn search_flags_fill_the_four_classes_in_order() {
    let args: Vec<String> =
        ["cc", "-iquote", "q", "-Ia", "-isystem", "s", "-idirafter", "z", "-I", "b"].iter().map(|s| s.to_string()).collect();
    let sp = search_paths_from_args(&args, "/w");
    assert_eq!(
        sp,
        SearchPaths {
            iquote: vec!["/w/q".to_string()],
            include_dirs: vec!["/w/a".to_string(), "/w/b".to_string()],
            system: vec!["/w/s".to_string()],
            after: vec!["/w/z".to_string()],
        }
    );
    let expected: Vec<String> =
        ["/src", "/w/q", "/w/a", "/w/b", "/w/s", "/w/z"].iter().map(|s| s.to_string()).collect();
    assert_eq!(candidates("/src/m.cpp", false, &sp), expected);
    assert_eq!(candidates("/src/m.cpp", true, &sp), expected[2..].to_vec());
}

#[test]
fn parse_errors_name_the_entry() {
    assert_eq!(
        parse_compile_commands("{}", "/").unwrap_err(),
        "compile_commands.json must contain a JSON array"
    );
    assert_eq!(
        parse_compile_commands("[{\"file\": \"a\"}]", "/").unwrap_err(),
        "entry 0: missing \"directory\""
    );
    assert_eq!(
        parse_compile_commands("[{\"directory\": \"/\"}]", "/").unwrap_err(),
        "entry 0: missing \"file\""
    );
    assert_eq!(
        parse_compile_commands("[{\"directory\": \"/\", \"file\": \"a\", \"arguments\": 1}]", "/").unwrap_err(),
        "entry 0: \"arguments\" must be an array"
    );
    assert_eq!(
        parse_compile_commands("[{\"directory\": \"/\", \"file\": \"a\", \"arguments\": [2]}]", "/").unwrap_err(),
        "entry 0: \"arguments\" must contain strings"
    );
    assert_eq!(
        parse_compile_commands("[{\"directory\": \"/\", \"file\": \"a\"}]", "/").unwrap_err(),
        "entry 0: needs \"arguments\" or \"command\""
    );
}

#[test]
fn rng_is_splitmix() {
    let mut r = Rng::new(0);
    assert_eq!(r.next_u64(), 0xE220_A839_7B1D_CDAF);
    let mut r = Rng::new(7);
    let x = r.below(10);
    assert!(x < 10);
}

#[test]
fn generated_projects_have_the_configured_shape() {
    let cfg = GenConfig::small(3);
    let gp = generate(&cfg);
    assert_eq!(gp.files.len(), 46);
    assert_eq!(gp.tus.len(), 6);
    assert_eq!(gp.include_dirs, vec!["include".to_string()]);
    assert_eq!(gp.files[0].0, "include/mod0/h0.h");
    assert_eq!(gp.files[40].0, "src/tu0.cpp");
    assert_eq!(gp.tus[5], "src/tu5.cpp");
    let again = generate(&cfg);
    assert_eq!(gp.files, again.files);
    let (fs, commands) = gp.to_memfs("/proj");
    assert_eq!(fs.len(), 46);
    assert_eq!(commands[0].directory, "/proj");
    assert_eq!(commands[0].file, "/proj/src/tu0.cpp");
    assert_eq!(commands[0].search.include_dirs, vec!["/proj/include".to_string()]);
}

#[test]
fn closure_weights_count_each_reachable_file_once() {
    let mut fs = MemFs::new();
    fs.insert("/p/a.cpp", b"#include \"b.h\"\n#include \"c.h\"\n");
    fs.insert("/p/b.h", b"#pragma once\n#include \"d.h\"\nint b;\n");
    fs.insert("/p/c.h", b"#pragma once\n#include \"d.h\"\nint c;\n");
    fs.insert("/p/d.h", b"#pragma once\nint d;\n");
    let commands = vec![CompileCommand {
        directory: "/p".to_string(),
        file: "/p/a.cpp".to_string(),
        search: SearchPaths::default(),
    }];
    let p = Project::load(&fs, &commands);
    let w = closure_weights(&p, 0);
    let id = |n: &str| p.file_id(n).unwrap();
    let wt = |n: &str| scan(fs.get(n).unwrap().as_slice()).weight;
    assert_eq!(w[&id("/p/b.h")], wt("/p/b.h") + wt("/p/d.h"));
    assert_eq!(w[&id("/p/d.h")], wt("/p/d.h"));
    assert!(!w.contains_key(&id("/p/a.cpp")));
    let c = tu_costs(&p, 0);
    assert_eq!(c.files[&id("/p/d.h")].exclusive, wt("/p/d.h"));
    assert_eq!(c.files[&id("/p/b.h")].exclusive, wt("/p/b.h"));
    let a = analyze(&p, &Options::default());
    assert_eq!(a.headers.len(), 3);
    assert_eq!(a.header("/p/./b.h").unwrap().inclusive, wt("/p/b.h") + wt("/p/d.h"));
}

#[test]
fn non_utf8_spellings_are_read_lossily() {
    let f = scan(b"#include \"a\xffb.h\"\n");
    assert_eq!(f.includes[0].spelling, "a\u{FFFD}b.h");
}

#[test]
fn merging_split_accumulators_matches_the_sequential_totals() {
    let gp = generate(&GenConfig::small(5));
    let (fs, commands) = gp.to_memfs("/proj");
    let p = Project::load(&fs, &commands);
    let (n, nc) = (p.paths.len(), p.configs.len());
    let mut all = Accum::new(n, nc);
    let mut evens = Accum::new(n, nc);
    let mut odds = Accum::new(n, nc);
    for tu in 0..p.tus.len() {
        all.add(p.tus[tu].config, tu_costs(&p, tu));
        if tu % 2 == 0 {
            evens.add(p.tus[tu].config, tu_costs(&p, tu));
        } else {
            odds.add(p.tus[tu].config, tu_costs(&p, tu));
        }
    }
    let mut one = Accum::new(n, nc);
    one.merge(evens);
    one.merge(odds);
    assert_eq!(one.exclusive, all.exclusive);
    assert_eq!(one.expansions, all.expansions);
    assert_eq!(one.presence, all.presence);
    assert_eq!(one.total, all.total);
    assert_eq!(one.truncated, all.truncated);
    let opts = Options::default();
    assert_eq!(summarize(&p, &opts, &one).headers, summarize(&p, &opts, &all).headers);
    assert_eq!(summarize(&p, &opts, &all).headers, analyze(&p, &opts).headers);
}

#[test]
fn commands_become_tus_and_missing_sources_in_order() {
    let mut fs = MemFs::new();
    fs.insert("/p/a.cpp", b"int a;\n");
    fs.insert("/p/c.cpp", b"int c;\n");
    let command = |file: &str| CompileCommand {
        directory: "/p".to_string(),
        file: file.to_string(),
        search: SearchPaths::default(),
    };
    let commands = vec![command("/p/c.cpp"), command("/p/gone.cpp"), command("/p/a.cpp"), command("/p/lost.cpp")];
    let p = Project::load(&fs, &commands);
    assert_eq!(p.tus.len(), 2);
    assert_eq!(p.paths[p.tus[0].file as usize], "/p/c.cpp");
    assert_eq!(p.paths[p.tus[1].file as usize], "/p/a.cpp");
    assert_eq!(p.missing_sources, vec!["/p/gone.cpp".to_string(), "/p/lost.cpp".to_string()]);
    assert!(p.file_id("/p/c.cpp").is_some());
    assert_eq!(p.file_id("/p//c.cpp"), p.file_id("/p/c.cpp"));
    assert_eq!(p.file_id("/p/./c.cpp"), p.file_id("/p/c.cpp"));
}

#[test]
fn resolution_asks_about_candidate_paths_and_takes_the_first_yes() {
    let sp = SearchPaths {
        iquote: vec![],
        include_dirs: vec!["/inc".to_string()],
        system: vec![],
        after: vec![],
    };
    let quoted = candidate_paths("/src/m.cpp", "../x/./a.h", false, &sp);
    assert_eq!(quoted, vec!["/x/a.h".to_string(), "/x/a.h".to_string()]);
    assert_eq!(candidate_paths("/src/m.cpp", "b.h", true, &sp), vec!["/inc/b.h".to_string()]);
    assert_eq!(candidate_paths("/src/m.cpp", "/abs/../c.h", false, &sp), vec!["/c.h".to_string()]);
    let paths = vec!["/a".to_string(), "/b".to_string(), "/c".to_string()];
    assert_eq!(first_found(&paths, &vec![false, true]), Some("/b".to_string()));
    assert_eq!(first_found(&paths, &vec![false, false, false]), None);
    assert_eq!(first_found(&paths, &vec![]), None);
}

#[test]
fn unreadable_sources_scan_to_nothing() {
    assert!(Project::scanned_from(None).is_none());
    let s = Project::scanned_from(Some(b"#pragma once\nint x;\n".to_vec())).unwrap();
    assert!(s.once());
    assert_eq!(s.weight, scan(b"#pragma once\nint x;\n").weight);
}

#[test]
fn one_huge_module_holds_every_header() {
    let mut cfg = GenConfig::small(9);
    cfg.module_size = usize::MAX;
    cfg.headers = 5;
    cfg.tus = 2;
    let gp = generate(&cfg);
    assert_eq!(gp.files.len(), 7);
    assert_eq!(gp.files[4].0, "include/mod0/h4.h");
    assert_eq!(gp.tus, vec!["src/tu0.cpp".to_string(), "src/tu1.cpp".to_string()]);
}

#[test]
fn paths_naming_one_file_share_an_id() {
    let mut fs = MemFs::new();
    fs.insert("/p/a.cpp", b"#include \"b.h\"\nint a;\n");
    fs.insert("/p/b.h", b"#pragma once\nint b;\n");
    let command = |file: &str| CompileCommand {
        directory: "/p".to_string(),
        file: file.to_string(),
        search: SearchPaths::default(),
    };
    let commands = vec![command("/p/./a.cpp"), command("/p//a.cpp")];
    let p = Project::load(&fs, &commands);
    assert_eq!(p.paths.len(), 2);
    assert_eq!(p.paths[0], "/p/./a.cpp");
    assert_eq!(p.tus.len(), 2);
    assert_eq!(p.tus[0].file, p.tus[1].file);
    assert_eq!(p.file_id("/p/a.cpp"), Some(0));
}

#[test]
fn plain_text_splits_at_line_feeds() {
    let lines = includecost::lexer::logical_lines(b"a\n\nb c\n");
    let got: Vec<(u32, Vec<u8>)> = lines.iter().map(|l| (l.number, l.text.clone())).collect();
    assert_eq!(got, vec![(1, b"a".to_vec()), (2, Vec::new()), (3, b"b c".to_vec())]);
    let empty = includecost::lexer::logical_lines(b"");
    assert_eq!(empty.len(), 1);
    assert_eq!(empty[0].number, 1);
    assert!(empty[0].text.is_empty());
}

#[test]
fn closure_weights_saturate_per_closure() {
    let mut fs = MemFs::new();
    fs.insert("/p/a.cpp", b"#include \"b.h\"\n#include \"c.h\"\n");
    fs.insert("/p/b.h", b"#pragma once\n#include \"d.h\"\nint b;\n");
    fs.insert("/p/c.h", b"#pragma once\nint c;\n");
    fs.insert("/p/d.h", b"#pragma once\nint d;\n");
    let commands = vec![CompileCommand {
        directory: "/p".to_string(),
        file: "/p/a.cpp".to_string(),
        search: SearchPaths::default(),
    }];
    let mut p = Project::load(&fs, &commands);
    let c = p.file_id("/p/c.h").unwrap() as usize;
    let a = p.file_id("/p/a.cpp").unwrap() as usize;
    p.scanned[c].as_mut().unwrap().weight = u64::MAX;
    p.scanned[a].as_mut().unwrap().weight = u64::MAX;
    let w = closure_weights(&p, 0);
    let wt = |n: &str| scan(fs.get(n).unwrap().as_slice()).weight;
    assert_eq!(w[&p.file_id("/p/b.h").unwrap()], wt("/p/b.h") + wt("/p/d.h"));
    assert_eq!(w[&(c as u32)], u64::MAX);
}
