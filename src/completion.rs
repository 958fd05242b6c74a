//! The reserved subcommand that generates completion scripts, and the lines
//! that hand a generated script back to the calling shell.
use vstd::prelude::*;
use vstd::string::*;
use crate::compile::Command;
use crate::shape::{flag_names, value_names};
use crate::names::{insert_sorted, sorted, views};
use crate::schema::ArgSpec;
use crate::text::{escaped, push_escaped};

verus! {

/// Every name declared directly under a command.
pub open spec fn command_level_names(c: Command) -> Seq<Seq<char>> {
    flag_names(c) + value_names(c) + c.subcommands@.map_values(|s: Command| s.name@)
}

pub open spec fn completion_name() -> Seq<char> {
    seq![
        'c', 'l', 'a', 'p', '4', 's', 'h', 'e', 'l', 'l', '-', 'c', 'o', 'm', 'p', 'l', 'e', 't', 'i',
        'o', 'n',
    ]
}

/// The name of the completion subcommand.
pub fn completion_command_name() -> (r: &'static str)
    ensures
        r@ == completion_name(),
{
    proof {
        reveal_strlit("clap4shell-completion");
        assert("clap4shell-completion"@ =~= completion_name());
    }
    "clap4shell-completion"
}

fn plain_arg(name: &str, takes_value: bool) -> (r: ArgSpec)
    ensures
        r.name@ == name@,
        r.takes_value == takes_value,
{
    ArgSpec {
        name: String::from_str(name),
        takes_value,
        required: false,
        multiple: false,
        short: None,
        long: None,
        aliases: Vec::new(),
        help: None,
        default_value: None,
        possible_values: Vec::new(),
        value_delimiter: None,
        requires: Vec::new(),
        env: None,
        index: None,
    }
}

/// The completion subcommand: a positional `shell` limited to the given shell
/// names, and an `output` option (`-o`, `--output`).
pub fn completion_command(shells: &Vec<String>) -> (r: Command)
    ensures
        r.name@ == completion_name(),
        r.flags@.len() == 0,
        r.subcommands@.len() == 0,
        r.args@.len() == 1,
        r.args@[0].name@ == "shell"@,
        views(r.args@[0].possible_values@).to_set() == views(shells@).to_set(),
        r.opts@.len() == 1,
        r.opts@[0].name@ == "output"@,
        r.opts@[0].short == Some('o'),
        r.opts@[0].long.unwrap()@ == "output"@,
{
    let mut shell = plain_arg("shell", true);
    shell.help = Some(String::from_str("target shell"));
    let mut values: Vec<String> = Vec::new();
    let mut i: usize = 0;
    assert(views(values@) =~= Seq::<Seq<char>>::empty());
    assert(views(shells@).subrange(0, 0).to_set() =~= views(values@).to_set());
    while i < shells.len()
        invariant
            i <= shells.len(),
            sorted(views(values@)),
            views(values@).to_set() == views(shells@).subrange(0, i as int).to_set(),
        decreases shells.len() - i,
    {
        let ghost before = views(values@).to_set();
        let added = insert_sorted(&mut values, shells[i].clone());
        proof {
            let all = views(shells@);
            assert(all.subrange(0, i + 1) =~= all.subrange(0, i as int).push(all[i as int]));
            assert(all.subrange(0, i + 1).to_set() =~= all.subrange(0, i as int).to_set().insert(
                all[i as int],
            )) by {
                broadcast use vstd::seq_lib::group_seq_properties;
            }
            if !added {
                assert(before.insert(all[i as int]) =~= before);
            }
        }
        i = i + 1;
    }
    assert(views(shells@).subrange(0, i as int) =~= views(shells@));
    shell.possible_values = values;
    let mut output = plain_arg("output", true);
    output.short = Some('o');
    output.long = Some(String::from_str("output"));
    output.help = Some(String::from_str("Write to file"));
    let mut args: Vec<ArgSpec> = Vec::new();
    args.push(shell);
    let mut opts: Vec<ArgSpec> = Vec::new();
    opts.push(output);
    Command {
        name: String::from_str(completion_command_name()),
        metadata: Vec::new(),
        settings: Vec::new(),
        flags: Vec::new(),
        opts,
        args,
        subcommands: Vec::new(),
    }
}

/// Whether a name is declared directly under the command.
fn declares(c: &Command, name: &str) -> (r: bool)
    ensures
        r == command_level_names(*c).contains(name@),
{
    let ghost all = command_level_names(*c);
    let mut i: usize = 0;
    while i < c.flags.len()
        invariant
            all == command_level_names(*c),
            i <= c.flags.len(),
            forall|k: int| 0 <= k < i ==> all[k] != name@,
        decreases c.flags.len() - i,
    {
        if crate::schema::str_eq(c.flags[i].name.as_str(), name) {
            assert(all[i as int] == name@);
            return true;
        }
        i = i + 1;
    }
    let ghost base = c.flags@.len() as int;
    let mut i: usize = 0;
    while i < c.opts.len()
        invariant
            all == command_level_names(*c),
            base == c.flags@.len(),
            i <= c.opts.len(),
            forall|k: int| 0 <= k < base + i ==> all[k] != name@,
        decreases c.opts.len() - i,
    {
        if crate::schema::str_eq(c.opts[i].name.as_str(), name) {
            assert(all[base + i] == name@);
            return true;
        }
        i = i + 1;
    }
    let ghost base = c.flags@.len() + c.opts@.len();
    let mut i: usize = 0;
    while i < c.args.len()
        invariant
            all == command_level_names(*c),
            base == c.flags@.len() + c.opts@.len(),
            i <= c.args.len(),
            forall|k: int| 0 <= k < base + i ==> all[k] != name@,
        decreases c.args.len() - i,
    {
        if crate::schema::str_eq(c.args[i].name.as_str(), name) {
            assert(all[base + i] == name@);
            return true;
        }
        i = i + 1;
    }
    let ghost base = c.flags@.len() + c.opts@.len() + c.args@.len();
    let mut i: usize = 0;
    while i < c.subcommands.len()
        invariant
            all == command_level_names(*c),
            base == c.flags@.len() + c.opts@.len() + c.args@.len(),
            i <= c.subcommands.len(),
            forall|k: int| 0 <= k < base + i ==> all[k] != name@,
        decreases c.subcommands.len() - i,
    {
        if crate::schema::str_eq(c.subcommands[i].name.as_str(), name) {
            assert(all[base + i] == name@);
            return true;
        }
        i = i + 1;
    }
    assert(all.len() == base + c.subcommands@.len());
    false
}

/// Adds the completion subcommand under the command, unless the command
/// already declares a name that it would collide with; returns whether it
/// was added.
pub fn add_completion_subcommand(c: &mut Command, shells: &Vec<String>) -> (r: bool)
    ensures
        r == !command_level_names(*old(c)).contains(completion_name()),
        r ==> final(c).subcommands@.len() == old(c).subcommands@.len() + 1,
        r ==> final(c).subcommands@.subrange(0, old(c).subcommands@.len() as int)
            == old(c).subcommands@,
        r ==> final(c).subcommands@.last().name@ == completion_name(),
        !r ==> *final(c) == *old(c),
        final(c).name == old(c).name,
        final(c).flags == old(c).flags,
        final(c).opts == old(c).opts,
        final(c).args == old(c).args,
{
    if declares(c, completion_command_name()) {
        return false;
    }
    let sub = completion_command(shells);
    c.subcommands.push(sub);
    assert(c.subcommands@.subrange(0, old(c).subcommands@.len() as int) =~= old(c).subcommands@);
    true
}

/// `echo $'<script>'` then `exit 0`: what the calling shell evaluates to
/// print a generated completion script.
pub fn completion_lines(script: &str) -> (r: Vec<String>)
    ensures
        r@.len() == 2,
        r@[0]@ == seq!['e', 'c', 'h', 'o', ' ', '$', '\''] + escaped(script@) + seq!['\''],
        r@[1]@ == seq!['e', 'x', 'i', 't', ' ', '0'],
{
    proof {
        reveal_strlit("echo $'");
        reveal_strlit("'");
        reveal_strlit("exit 0");
    }
    let mut first = String::from_str("echo $'");
    push_escaped(&mut first, script);
    first.append("'");
    let mut r: Vec<String> = Vec::new();
    r.push(first);
    r.push(String::from_str("exit 0"));
    assert(r@[0]@ =~= seq!['e', 'c', 'h', 'o', ' ', '$', '\''] + escaped(script@) + seq!['\'']);
    assert(r@[1]@ =~= seq!['e', 'x', 'i', 't', ' ', '0']);
    r
}

} // verus!
