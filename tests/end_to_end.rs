use clap4shell::compile::{compile, Command};
use clap4shell::resolve::{resolve, Resolution};
use clap4shell::schema::{ArgSpec, Node};
use clap4shell::settings::Setting;

fn text(x: &str) -> Node {
    Node::Str(x.to_string())
}

fn dict(entries: Vec<(&str, Node)>) -> Node {
    Node::Dict(entries.into_iter().map(|(k, v)| (k.to_string(), v)).collect())
}

#[allow(deprecated)]
fn arg_to_clap(a: &ArgSpec, positional: bool) -> clap::Arg<'_> {
    let mut arg = clap::Arg::new(a.name.as_str())
        .takes_value(a.takes_value)
        .required(a.required);
    if a.multiple {
        arg = if positional {
            arg.multiple_values(true)
        } else {
            arg.multiple_occurrences(true)
        };
    }
    if let Some(c) = a.short {
        arg = arg.short(c);
    }
    if let Some(l) = &a.long {
        arg = arg.long(l.as_str());
    }
    if !a.possible_values.is_empty() {
        arg = arg.possible_values(a.possible_values.iter().map(|s| s.as_str()));
    }
    arg
}

fn command_to_clap(c: &Command) -> clap::Command<'_> {
    let mut cmd = clap::Command::new(c.name.as_str());
    if c.settings.contains(&Setting::RequiredSubcommand) {
        cmd = cmd.subcommand_required(true);
    }
    for a in &c.flags {
        cmd = cmd.arg(arg_to_clap(a, false));
    }
    for a in &c.opts {
        cmd = cmd.arg(arg_to_clap(a, false));
    }
    for a in &c.args {
        cmd = cmd.arg(arg_to_clap(a, true));
    }
    for s in &c.subcommands {
        cmd = cmd.subcommand(command_to_clap(s));
    }
    cmd
}

#[allow(deprecated)]
fn resolution_of(c: &Command, m: &clap::ArgMatches) -> Resolution {
    let counts = c
        .flags
        .iter()
        .map(|a| (a.name.clone(), m.occurrences_of(a.name.as_str())))
        .collect();
    let values = c
        .opts
        .iter()
        .chain(c.args.iter())
        .filter_map(|a| {
            m.values_of(a.name.as_str())
                .map(|v| (a.name.clone(), v.map(String::from).collect()))
        })
        .collect();
    let subcommand = m.subcommand().map(|(name, sm)| {
        let sc = c.subcommands.iter().find(|s| s.name == name).expect("declared");
        (name.to_string(), Box::new(resolution_of(sc, sm)))
    });
    Resolution { counts, values, subcommand }
}

/// Compiles the document, matches `argv` and resolves: the output lines, or
/// the matching engine's message.
fn run(doc: &Node, argv: &[&str]) -> Result<Vec<String>, String> {
    let (command, shape) = compile(doc, &"app".to_string()).ok().expect("compiles");
    let app = command_to_clap(&command);
    let mut full = vec!["app"];
    full.extend_from_slice(argv);
    let matches = app.try_get_matches_from(full).map_err(|e| e.to_string())?;
    let res = resolution_of(&command, &matches);
    Ok(resolve(&shape, &res).ok().expect("resolves"))
}

#[test]
fn counted_short_flag() {
    let doc = dict(vec![(
        "flags",
        dict(vec![("verbose", dict(vec![("short", text("v")), ("multiple", Node::Bool(true))]))]),
    )]);
    assert_eq!(run(&doc, &["-vv"]).unwrap(), vec!["verbose=2".to_string()]);
}

#[test]
fn missing_required_option_fails() {
    let doc = dict(vec![(
        "opts",
        dict(vec![("name", dict(vec![("long", text("name")), ("required", Node::Bool(true))]))]),
    )]);
    let err = run(&doc, &[]).unwrap_err();
    assert!(!err.is_empty());
}

#[test]
fn subcommand_with_root_positional() {
    let doc = dict(vec![
        ("args", Node::List(vec![dict(vec![("name", text("path"))])])),
        (
            "subcommands",
            dict(vec![(
                "build",
                dict(vec![("flags", dict(vec![("release", dict(vec![("long", text("release"))]))]))]),
            )]),
        ),
    ]);
    let lines = run(&doc, &["build", "--release"]).unwrap();
    assert_eq!(
        lines,
        vec!["path=".to_string(), "subcommand=build".to_string(), "release=1".to_string()]
    );
}

#[test]
fn value_outside_possible_values_fails() {
    let doc = dict(vec![(
        "opts",
        dict(vec![(
            "mode",
            dict(vec![
                ("long", text("mode")),
                ("possible_values", Node::List(vec![text("a"), text("b")])),
            ]),
        )]),
    )]);
    assert!(run(&doc, &["--mode", "c"]).is_err());
    assert_eq!(run(&doc, &["--mode", "b"]).unwrap(), vec!["mode='b'".to_string()]);
}

#[test]
fn no_subcommand_token_no_subcommand_line() {
    let doc = dict(vec![("subcommands", dict(vec![("build", dict(vec![]))]))]);
    assert_eq!(run(&doc, &[]).unwrap(), Vec::<String>::new());
}

#[test]
fn required_subcommand_missing_fails() {
    let doc = dict(vec![
        ("settings", Node::List(vec![text("required-subcommand")])),
        ("subcommands", dict(vec![("build", dict(vec![]))])),
    ]);
    assert!(run(&doc, &[]).is_err());
    assert_eq!(run(&doc, &["build"]).unwrap(), vec!["subcommand=build".to_string()]);
}
