use clap4shell::compile::{compile, compile_command, Command, CommandKey};
use clap4shell::completion::{add_completion_subcommand, completion_command, completion_lines};
use clap4shell::names::{insert_sorted, str_lt};
use clap4shell::resolve::{resolve, CommandShape, Resolution, ResolveError};
use clap4shell::schema::{compile_arg, Expectation, Node, SchemaError};
use clap4shell::settings::{eq_ignore_case, setting_from_name, Setting};
use clap4shell::text::{push_decimal, push_escaped, push_joined_escaped};

fn text(x: &str) -> Node {
    Node::Str(x.to_string())
}

fn dict(entries: Vec<(&str, Node)>) -> Node {
    Node::Dict(entries.into_iter().map(|(k, v)| (k.to_string(), v)).collect())
}

fn list(items: Vec<Node>) -> Node {
    Node::List(items)
}

fn strings(v: &[&str]) -> Vec<String> {
    v.iter().map(|s| s.to_string()).collect()
}

fn compile_root(doc: &Node) -> Result<Command, SchemaError> {
    compile_command(doc, &"app".to_string(), &String::new())
}

fn shape_of(doc: &Node) -> CommandShape {
    compile(doc, &"app".to_string()).ok().expect("compiles").1
}

fn no_match() -> Resolution {
    Resolution { counts: Vec::new(), values: Vec::new(), subcommand: None }
}

/// Reads a value back the way the calling shell does.
fn unescape(s: &str) -> String {
    let chars: Vec<char> = s.chars().collect();
    let mut out = String::new();
    let mut i = 0;
    while i < chars.len() {
        if chars[i] == '\\' && i + 1 < chars.len() && chars[i + 1] == '\'' {
            out.push('\'');
            i += 2;
        } else {
            out.push(chars[i]);
            i += 1;
        }
    }
    out
}

#[test]
fn escaping_prefixes_quotes() {
    let mut out = String::from("x=");
    push_escaped(&mut out, "it's");
    assert_eq!(out, "x=it\\'s");
}

#[test]
fn escaping_round_trips() {
    for v in ["it's", "''", "plain", "", "a\\'b", "\\", "x'y'z\n'"] {
        let mut out = String::new();
        push_escaped(&mut out, v);
        assert_eq!(unescape(&out), v);
    }
}

#[test]
fn joined_values_are_newline_separated() {
    let mut out = String::new();
    push_joined_escaped(&mut out, &strings(&["a", "b'c", "d"]));
    assert_eq!(out, "a\nb\\'c\nd");
    let mut empty = String::new();
    push_joined_escaped(&mut empty, &Vec::new());
    assert_eq!(empty, "");
}

#[test]
fn decimal_digits() {
    for (n, s) in [(0u64, "0"), (7, "7"), (10, "10"), (1234, "1234"), (u64::MAX, "18446744073709551615")] {
        let mut out = String::new();
        push_decimal(&mut out, n);
        assert_eq!(out, s);
    }
}

#[test]
fn lexicographic_order() {
    assert!(str_lt("a", "b"));
    assert!(str_lt("ab", "abc"));
    assert!(!str_lt("abc", "ab"));
    assert!(!str_lt("same", "same"));
    assert!(str_lt("", "a"));
    assert!(str_lt("Z", "a"));
}

#[test]
fn sorted_insertion_rejects_repeats() {
    let mut v: Vec<String> = Vec::new();
    assert!(insert_sorted(&mut v, "m".to_string()));
    assert!(insert_sorted(&mut v, "a".to_string()));
    assert!(insert_sorted(&mut v, "z".to_string()));
    assert!(!insert_sorted(&mut v, "a".to_string()));
    assert_eq!(v, strings(&["a", "m", "z"]));
}

#[test]
fn settings_ignore_case() {
    assert!(eq_ignore_case("Infer-Subcommands", "infer-subcommands"));
    assert!(!eq_ignore_case("infer", "infer-subcommands"));
    assert_eq!(setting_from_name("REQUIRED-SUBCOMMAND"), Some(Setting::RequiredSubcommand));
    assert_eq!(setting_from_name("color-never"), Some(Setting::ColorNever));
    assert_eq!(setting_from_name("infer-long-args"), Some(Setting::InferLongArgs));
    assert_eq!(setting_from_name("no-such-setting"), None);
}

#[test]
fn argument_fields() {
    let n = dict(vec![
        ("short", text("v")),
        ("long", text("verbose")),
        ("multiple", Node::Bool(true)),
        ("aliases", list(vec![text("loud"), text("chatty"), text("loud")])),
        ("possible_values", text("one")),
        ("index", Node::Int(2)),
    ]);
    let a = compile_arg(&n, &"verbose".to_string(), false, &".flags.verbose".to_string())
        .ok()
        .unwrap();
    assert_eq!(a.name, "verbose");
    assert!(!a.takes_value);
    assert!(a.multiple);
    assert!(!a.required);
    assert_eq!(a.short, Some('v'));
    assert_eq!(a.long, Some("verbose".to_string()));
    assert_eq!(a.aliases, strings(&["chatty", "loud"]));
    assert_eq!(a.possible_values, strings(&["one"]));
    assert_eq!(a.index, Some(2));
}

#[test]
fn argument_name_entry_wins() {
    let n = dict(vec![("name", text("other"))]);
    let a = compile_arg(&n, &"key".to_string(), true, &String::new()).ok().unwrap();
    assert_eq!(a.name, "other");
}

#[test]
fn short_must_be_one_character() {
    let doc = dict(vec![(
        "subcommands",
        dict(vec![(
            "build",
            dict(vec![("opts", dict(vec![("target", dict(vec![("short", text("tg"))]))]))]),
        )]),
    )]);
    match compile_root(&doc) {
        Err(SchemaError::Expected { what, path }) => {
            assert_eq!(what, Expectation::Character);
            assert_eq!(path, ".subcommands.build.opts.target");
        }
        _ => panic!("expected a shape error"),
    }
}

#[test]
fn unknown_command_key() {
    match compile_root(&dict(vec![("flagz", dict(vec![]))])) {
        Err(SchemaError::UnrecognizedKey { key, path }) => {
            assert_eq!(key, "flagz");
            assert_eq!(path, "");
        }
        _ => panic!("expected an unrecognized key"),
    }
}

#[test]
fn unknown_argument_key() {
    let doc = dict(vec![("flags", dict(vec![("v", dict(vec![("colour", text("x"))]))]))]);
    match compile_root(&doc) {
        Err(SchemaError::UnrecognizedKey { key, path }) => {
            assert_eq!(key, "colour");
            assert_eq!(path, ".flags.v");
        }
        _ => panic!("expected an unrecognized key"),
    }
}

#[test]
fn positional_needs_a_name() {
    let doc = dict(vec![("args", list(vec![dict(vec![("name", text("a"))]), dict(vec![])]))]);
    match compile_root(&doc) {
        Err(SchemaError::MissingName { path }) => assert_eq!(path, ".args.1"),
        _ => panic!("expected a missing name"),
    }
}

#[test]
fn unknown_setting() {
    let doc = dict(vec![("settings", list(vec![text("hidden"), text("shiny")]))]);
    match compile_root(&doc) {
        Err(SchemaError::UnknownSetting { name, path }) => {
            assert_eq!(name, "shiny");
            assert_eq!(path, ".settings");
        }
        _ => panic!("expected an unknown setting"),
    }
}

#[test]
fn settings_must_be_a_sequence() {
    match compile_root(&dict(vec![("settings", text("hidden"))])) {
        Err(SchemaError::Expected { what, path }) => {
            assert_eq!(what, Expectation::Sequence);
            assert_eq!(path, ".settings");
        }
        _ => panic!("expected a shape error"),
    }
}

#[test]
fn document_must_be_a_mapping() {
    match compile_root(&list(vec![])) {
        Err(SchemaError::Expected { what, .. }) => assert_eq!(what, Expectation::Mapping),
        _ => panic!("expected a shape error"),
    }
}

#[test]
fn names_must_be_distinct_across_kinds() {
    let doc = dict(vec![
        ("flags", dict(vec![("x", dict(vec![]))])),
        ("args", list(vec![dict(vec![("name", text("x"))])])),
    ]);
    match compile_root(&doc) {
        Err(SchemaError::DuplicateName { name, path }) => {
            assert_eq!(name, "x");
            assert_eq!(path, ".args");
        }
        _ => panic!("expected a duplicate name"),
    }
    let doc = dict(vec![
        ("opts", dict(vec![("build", dict(vec![]))])),
        ("subcommands", dict(vec![("build", dict(vec![]))])),
    ]);
    assert!(matches!(compile_root(&doc), Err(SchemaError::DuplicateName { .. })));
}

#[test]
fn compiled_command_keeps_document_order() {
    let doc = dict(vec![
        ("name", text("tool")),
        ("about", text("does things")),
        ("settings", list(vec![text("Hidden"), text("infer-subcommands")])),
        ("flags", dict(vec![("z", dict(vec![])), ("a", dict(vec![]))])),
        ("opts", dict(vec![("o", dict(vec![("long", text("out"))]))])),
        ("args", list(vec![dict(vec![("name", text("p"))])])),
        ("subcommands", dict(vec![("run", dict(vec![])), ("build", dict(vec![]))])),
    ]);
    let c = compile_root(&doc).ok().unwrap();
    assert_eq!(c.name, "tool");
    assert_eq!(c.metadata.len(), 1);
    assert_eq!(c.metadata[0].0, CommandKey::About);
    assert_eq!(c.metadata[0].1, "does things");
    assert_eq!(c.settings, vec![Setting::Hidden, Setting::InferSubcommands]);
    let flags: Vec<&str> = c.flags.iter().map(|a| a.name.as_str()).collect();
    assert_eq!(flags, vec!["z", "a"]);
    assert!(c.opts[0].takes_value);
    assert_eq!(c.args[0].name, "p");
    let subs: Vec<&str> = c.subcommands.iter().map(|s| s.name.as_str()).collect();
    assert_eq!(subs, vec!["run", "build"]);
    let s = c.shape().unwrap();
    assert_eq!(s.flags, strings(&["a", "z"]));
    assert_eq!(s.values, strings(&["o", "p"]));
}

#[test]
fn every_declared_name_is_printed_once() {
    let doc = dict(vec![
        ("flags", dict(vec![("quiet", dict(vec![])), ("debug", dict(vec![]))])),
        ("opts", dict(vec![("level", dict(vec![]))])),
        ("args", list(vec![dict(vec![("name", text("input"))])])),
    ]);
    let shape = shape_of(&doc);
    let res = Resolution {
        counts: vec![("debug".to_string(), 3)],
        values: vec![("input".to_string(), strings(&["f.txt"]))],
        subcommand: None,
    };
    let lines = resolve(&shape, &res).ok().unwrap();
    assert_eq!(lines, strings(&["debug=3", "quiet=0", "input='f.txt'", "level="]));
}

#[test]
fn no_subcommand_no_subcommand_line() {
    let doc = dict(vec![("subcommands", dict(vec![("build", dict(vec![]))]))]);
    let lines = resolve(&shape_of(&doc), &no_match()).ok().unwrap();
    assert!(lines.is_empty());
}

#[test]
fn nested_subcommands_are_keyed_by_ancestors() {
    let doc = dict(vec![(
        "subcommands",
        dict(vec![(
            "remote",
            dict(vec![(
                "subcommands",
                dict(vec![("add", dict(vec![("args", list(vec![dict(vec![("name", text("url"))])]))]))]),
            )]),
        )]),
    )]);
    let res = Resolution {
        counts: Vec::new(),
        values: Vec::new(),
        subcommand: Some((
            "remote".to_string(),
            Box::new(Resolution {
                counts: Vec::new(),
                values: Vec::new(),
                subcommand: Some((
                    "add".to_string(),
                    Box::new(Resolution {
                        counts: Vec::new(),
                        values: vec![("url".to_string(), strings(&["a'b", "c"]))],
                        subcommand: None,
                    }),
                )),
            }),
        )),
    };
    let lines = resolve(&shape_of(&doc), &res).ok().unwrap();
    assert_eq!(
        lines,
        strings(&["subcommand=remote", "subcommand_remote=add", "url='a\\'b\nc'"])
    );
}

#[test]
fn undeclared_subcommand_is_an_error() {
    let res = Resolution {
        counts: Vec::new(),
        values: Vec::new(),
        subcommand: Some(("ghost".to_string(), Box::new(no_match()))),
    };
    match resolve(&shape_of(&dict(vec![])), &res) {
        Err(ResolveError::UnknownSubcommand { name }) => assert_eq!(name, "ghost"),
        Ok(_) => panic!("expected an error"),
    }
}

#[test]
fn same_document_same_output() {
    let doc = dict(vec![
        ("flags", dict(vec![("b", dict(vec![])), ("a", dict(vec![]))])),
        ("opts", dict(vec![("c", dict(vec![]))])),
    ]);
    let res = Resolution {
        counts: vec![("a".to_string(), 1)],
        values: vec![("c".to_string(), strings(&["x"]))],
        subcommand: None,
    };
    let first = resolve(&shape_of(&doc), &res).ok().unwrap();
    let second = resolve(&shape_of(&doc), &res).ok().unwrap();
    assert_eq!(first, second);
    let reordered = dict(vec![
        ("opts", dict(vec![("c", dict(vec![]))])),
        ("flags", dict(vec![("a", dict(vec![])), ("b", dict(vec![]))])),
    ]);
    assert_eq!(resolve(&shape_of(&reordered), &res).ok().unwrap(), first);
}

#[test]
fn compile_reports_the_first_defect() {
    let doc = dict(vec![("flags", dict(vec![("v", dict(vec![("required", text("yes"))]))]))]);
    match compile(&doc, &"app".to_string()) {
        Err(SchemaError::Expected { what, path }) => {
            assert_eq!(what, Expectation::Boolean);
            assert_eq!(path, ".flags.v");
        }
        _ => panic!("expected a shape error"),
    }
}

#[test]
fn completion_script_lines() {
    let lines = completion_lines("complete -F _f 'x'");
    assert_eq!(lines, strings(&["echo $'complete -F _f \\'x\\''", "exit 0"]));
}

#[test]
fn completion_subcommand_is_added_once() {
    let mut c = compile_root(&dict(vec![])).ok().unwrap();
    let shells = strings(&["zsh", "bash", "bash"]);
    assert!(add_completion_subcommand(&mut c, &shells));
    assert_eq!(c.subcommands.len(), 1);
    assert_eq!(c.subcommands[0].name, "clap4shell-completion");
    assert_eq!(c.subcommands[0].args[0].possible_values, strings(&["bash", "zsh"]));
    assert!(!add_completion_subcommand(&mut c, &shells));
    assert_eq!(c.subcommands.len(), 1);
    let sub = completion_command(&shells);
    assert_eq!(sub.opts[0].short, Some('o'));
}

#[test]
fn argument_must_be_a_mapping() {
    match compile_arg(&text("x"), &"a".to_string(), false, &".flags.a".to_string()) {
        Err(SchemaError::Expected { what, path }) => {
            assert_eq!(what, Expectation::Mapping);
            assert_eq!(path, ".flags.a");
        }
        _ => panic!("expected a shape error"),
    }
}

#[test]
fn first_defective_entry_decides_the_error() {
    let n = dict(vec![("long", Node::Bool(true)), ("bogus", text("x"))]);
    match compile_arg(&n, &"a".to_string(), true, &String::new()) {
        Err(SchemaError::Expected { what, .. }) => assert_eq!(what, Expectation::Text),
        _ => panic!("expected a shape error"),
    }
    let n = dict(vec![("bogus", text("x")), ("long", Node::Bool(true))]);
    match compile_arg(&n, &"a".to_string(), true, &String::new()) {
        Err(SchemaError::UnrecognizedKey { key, .. }) => assert_eq!(key, "bogus"),
        _ => panic!("expected an unrecognized key"),
    }
}
