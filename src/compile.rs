//! The schema compiler: checks a command description, recursively through
//! its subcommands, and builds the command tree that matching and output
//! are derived from.
use vstd::prelude::*;
use vstd::string::*;
use crate::names::{insert_sorted, sorted, views};
use crate::schema::{
    ArgKey, ArgSpec, Expectation, Node, SchemaError, arg_built, arg_node_ok, as_text,
    compile_arg, extend_path, str_eq, text_at, text_of, text_or_empty, within,
};
use crate::settings::{Setting, setting_from_name, setting_named};
use crate::laws::lemma_compiled_kinds_disjoint;
use crate::resolve::CommandShape;
use crate::shape::shape_of;
use crate::text::push_decimal;

verus! {

/// A key that may stand in the description of a command.
#[derive(Clone, Copy, Debug, PartialEq, Eq, Structural)]
pub enum CommandKey {
    Author,
    About,
    LongAbout,
    Name,
    BinName,
    BeforeHelp,
    AfterHelp,
    Version,
    LongVersion,
    Usage,
    Help,
    HelpShort,
    VersionShort,
    HelpMessage,
    VersionMessage,
    Settings,
    Flags,
    Opts,
    Args,
    Subcommands,
}

pub open spec fn command_key_named(s: Seq<char>) -> Option<CommandKey> {
    if s == "author"@ {
        Some(CommandKey::Author)
    } else if s == "about"@ {
        Some(CommandKey::About)
    } else if s == "long_about"@ {
        Some(CommandKey::LongAbout)
    } else if s == "name"@ {
        Some(CommandKey::Name)
    } else if s == "bin_name"@ {
        Some(CommandKey::BinName)
    } else if s == "before_help"@ {
        Some(CommandKey::BeforeHelp)
    } else if s == "after_help"@ {
        Some(CommandKey::AfterHelp)
    } else if s == "version"@ {
        Some(CommandKey::Version)
    } else if s == "long_version"@ {
        Some(CommandKey::LongVersion)
    } else if s == "usage"@ {
        Some(CommandKey::Usage)
    } else if s == "help"@ {
        Some(CommandKey::Help)
    } else if s == "help_short"@ {
        Some(CommandKey::HelpShort)
    } else if s == "version_short"@ {
        Some(CommandKey::VersionShort)
    } else if s == "help_message"@ {
        Some(CommandKey::HelpMessage)
    } else if s == "version_message"@ {
        Some(CommandKey::VersionMessage)
    } else if s == "settings"@ {
        Some(CommandKey::Settings)
    } else if s == "flags"@ {
        Some(CommandKey::Flags)
    } else if s == "opts"@ {
        Some(CommandKey::Opts)
    } else if s == "args"@ {
        Some(CommandKey::Args)
    } else if s == "subcommands"@ {
        Some(CommandKey::Subcommands)
    } else {
        None
    }
}

fn command_key(s: &str) -> (r: Option<CommandKey>)
    ensures
        r == command_key_named(s@),
{
    if str_eq(s, "author") {
        Some(CommandKey::Author)
    } else if str_eq(s, "about") {
        Some(CommandKey::About)
    } else if str_eq(s, "long_about") {
        Some(CommandKey::LongAbout)
    } else if str_eq(s, "name") {
        Some(CommandKey::Name)
    } else if str_eq(s, "bin_name") {
        Some(CommandKey::BinName)
    } else if str_eq(s, "before_help") {
        Some(CommandKey::BeforeHelp)
    } else if str_eq(s, "after_help") {
        Some(CommandKey::AfterHelp)
    } else if str_eq(s, "version") {
        Some(CommandKey::Version)
    } else if str_eq(s, "long_version") {
        Some(CommandKey::LongVersion)
    } else if str_eq(s, "usage") {
        Some(CommandKey::Usage)
    } else if str_eq(s, "help") {
        Some(CommandKey::Help)
    } else if str_eq(s, "help_short") {
        Some(CommandKey::HelpShort)
    } else if str_eq(s, "version_short") {
        Some(CommandKey::VersionShort)
    } else if str_eq(s, "help_message") {
        Some(CommandKey::HelpMessage)
    } else if str_eq(s, "version_message") {
        Some(CommandKey::VersionMessage)
    } else if str_eq(s, "settings") {
        Some(CommandKey::Settings)
    } else if str_eq(s, "flags") {
        Some(CommandKey::Flags)
    } else if str_eq(s, "opts") {
        Some(CommandKey::Opts)
    } else if str_eq(s, "args") {
        Some(CommandKey::Args)
    } else if str_eq(s, "subcommands") {
        Some(CommandKey::Subcommands)
    } else {
        None
    }
}

/// Keys whose text is shown to users and not interpreted.
pub open spec fn is_display_key(k: CommandKey) -> bool {
    match k {
        CommandKey::Name | CommandKey::Settings | CommandKey::Flags | CommandKey::Opts
        | CommandKey::Args | CommandKey::Subcommands => false,
        _ => true,
    }
}

/// A compiled command: what the matching engine is configured from, and
/// what the output shape is derived from.
pub struct Command {
    pub name: String,
    /// Display texts, in document order.
    pub metadata: Vec<(CommandKey, String)>,
    pub settings: Vec<Setting>,
    pub flags: Vec<ArgSpec>,
    pub opts: Vec<ArgSpec>,
    /// Positional arguments, in match order.
    pub args: Vec<ArgSpec>,
    pub subcommands: Vec<Command>,
}

pub open spec fn key_of(entry: (String, Node)) -> Option<CommandKey> {
    command_key_named(entry.0@)
}

/// The name an argument description gives, or `default`.
pub open spec fn arg_name_of(v: Node, default: Seq<char>) -> Seq<char> {
    match v {
        Node::Dict(e) => match text_at(e@, ArgKey::Name) {
            Some(t) => t,
            None => default,
        },
        _ => default,
    }
}

/// The text of the last `name` entry of a command description.
pub open spec fn name_entry(e: Seq<(String, Node)>) -> Option<Seq<char>>
    decreases e.len(),
{
    if e.len() == 0 {
        None
    } else if key_of(e.last()) == Some(CommandKey::Name) {
        as_text(e.last().1)
    } else {
        name_entry(e.drop_last())
    }
}

/// The name a command description gives, or `default`.
pub open spec fn command_name_of(v: Node, default: Seq<char>) -> Seq<char> {
    match v {
        Node::Dict(e) => match name_entry(e@) {
            Some(t) => t,
            None => default,
        },
        _ => default,
    }
}

pub open spec fn dict_arg_names(fs: Seq<(String, Node)>) -> Seq<Seq<char>> {
    fs.map_values(|p: (String, Node)| arg_name_of(p.1, p.0@))
}

pub open spec fn list_arg_names(items: Seq<Node>) -> Seq<Seq<char>> {
    items.map_values(|m: Node| arg_name_of(m, Seq::empty()))
}

pub open spec fn dict_command_names(ss: Seq<(String, Node)>) -> Seq<Seq<char>> {
    ss.map_values(|p: (String, Node)| command_name_of(p.1, p.0@))
}

pub open spec fn dict_entries(fs: Seq<(String, Node)>) -> Seq<(Seq<char>, Node)> {
    fs.map_values(|p: (String, Node)| (p.0@, p.1))
}

pub open spec fn setting_list(items: Seq<Node>) -> Seq<Setting> {
    items.map_values(|m: Node| setting_named(text_or_empty(m)).unwrap())
}

/// The names that one entry of a command description declares.
pub open spec fn entry_names(entry: (String, Node)) -> Seq<Seq<char>> {
    match key_of(entry) {
        Some(CommandKey::Flags) | Some(CommandKey::Opts) => match entry.1 {
            Node::Dict(fs) => dict_arg_names(fs@),
            _ => Seq::empty(),
        },
        Some(CommandKey::Args) => match entry.1 {
            Node::List(items) => list_arg_names(items@),
            _ => Seq::empty(),
        },
        Some(CommandKey::Subcommands) => match entry.1 {
            Node::Dict(ss) => dict_command_names(ss@),
            _ => Seq::empty(),
        },
        _ => Seq::empty(),
    }
}

/// Flag, option, positional and subcommand names of one level, in order.
pub open spec fn level_names(e: Seq<(String, Node)>) -> Seq<Seq<char>>
    decreases e.len(),
{
    if e.len() == 0 {
        Seq::empty()
    } else {
        level_names(e.drop_last()) + entry_names(e.last())
    }
}

pub open spec fn setting_item_ok(m: Node) -> bool {
    match m {
        Node::Str(t) => setting_named(t@) is Some,
        _ => false,
    }
}

pub open spec fn positional_ok(m: Node) -> bool {
    arg_node_ok(m) && text_at(m->Dict_0@, ArgKey::Name) is Some
}

/// Whether one entry has a known key and a value of the shape it needs;
/// subcommands are only required to be a mapping here.
pub open spec fn entry_ok(entry: (String, Node)) -> bool {
    match key_of(entry) {
        None => false,
        Some(k) => match k {
            CommandKey::Settings => match entry.1 {
                Node::List(items) => forall|j: int|
                    0 <= j < items@.len() ==> setting_item_ok(#[trigger] items@[j]),
                _ => false,
            },
            CommandKey::Flags | CommandKey::Opts => match entry.1 {
                Node::Dict(fs) => forall|j: int|
                    0 <= j < fs@.len() ==> arg_node_ok((#[trigger] fs@[j]).1),
                _ => false,
            },
            CommandKey::Args => match entry.1 {
                Node::List(items) => forall|j: int|
                    0 <= j < items@.len() ==> positional_ok(#[trigger] items@[j]),
                _ => false,
            },
            CommandKey::Subcommands => entry.1 is Dict,
            _ => as_text(entry.1) is Some,
        },
    }
}

/// Whether a command description, with all its subcommands, compiles: each
/// entry is well formed and the names declared at each level are distinct.
pub open spec fn command_ok(n: Node) -> bool
    decreases n,
{
    match n {
        Node::Dict(e) => level_names(e@).no_duplicates() && forall|i: int|
            0 <= i < e@.len() ==> entry_ok(#[trigger] e@[i]) && match e@[i].1 {
                Node::Dict(ss) => key_of(e@[i]) == Some(CommandKey::Subcommands) ==> forall|j: int|
                    0 <= j < ss@.len() ==> command_ok(#[trigger] ss@[j].1),
                _ => true,
            },
        _ => false,
    }
}

pub open spec fn entry_deep_ok(entry: (String, Node)) -> bool {
    entry_ok(entry) && match entry.1 {
        Node::Dict(ss) => key_of(entry) == Some(CommandKey::Subcommands) ==> forall|j: int|
            0 <= j < ss@.len() ==> command_ok(#[trigger] ss@[j].1),
        _ => true,
    }
}

/// Display texts of a level, in document order.
pub open spec fn meta_of(e: Seq<(String, Node)>) -> Seq<(CommandKey, Seq<char>)>
    decreases e.len(),
{
    if e.len() == 0 {
        Seq::empty()
    } else {
        meta_of(e.drop_last()) + match key_of(e.last()) {
            Some(k) => if is_display_key(k) {
                seq![(k, text_or_empty(e.last().1))]
            } else {
                Seq::empty()
            },
            None => Seq::empty(),
        }
    }
}

pub open spec fn settings_of(e: Seq<(String, Node)>) -> Seq<Setting>
    decreases e.len(),
{
    if e.len() == 0 {
        Seq::empty()
    } else {
        settings_of(e.drop_last()) + if key_of(e.last()) == Some(CommandKey::Settings) {
            match e.last().1 {
                Node::List(items) => setting_list(items@),
                _ => Seq::empty(),
            }
        } else {
            Seq::empty()
        }
    }
}

/// The entries, key and description, under every `flags` (or `opts`) key.
pub open spec fn named_args_of(e: Seq<(String, Node)>, k: CommandKey) -> Seq<(Seq<char>, Node)>
    decreases e.len(),
{
    if e.len() == 0 {
        Seq::empty()
    } else {
        named_args_of(e.drop_last(), k) + if key_of(e.last()) == Some(k) {
            match e.last().1 {
                Node::Dict(fs) => dict_entries(fs@),
                _ => Seq::empty(),
            }
        } else {
            Seq::empty()
        }
    }
}

pub open spec fn positionals_of(e: Seq<(String, Node)>) -> Seq<Node>
    decreases e.len(),
{
    if e.len() == 0 {
        Seq::empty()
    } else {
        positionals_of(e.drop_last()) + if key_of(e.last()) == Some(CommandKey::Args) {
            match e.last().1 {
                Node::List(items) => items@,
                _ => Seq::empty(),
            }
        } else {
            Seq::empty()
        }
    }
}

pub open spec fn meta_view(m: Seq<(CommandKey, String)>) -> Seq<(CommandKey, Seq<char>)> {
    m.map_values(|p: (CommandKey, String)| (p.0, p.1@))
}

pub open spec fn args_built(
    a: Seq<ArgSpec>,
    src: Seq<(Seq<char>, Node)>,
    takes_value: bool,
) -> bool {
    &&& a.len() == src.len()
    &&& forall|j: int|
        0 <= j < a.len() ==> arg_built(#[trigger] a[j], src[j].1->Dict_0@, src[j].0, takes_value)
}

pub open spec fn positionals_built(a: Seq<ArgSpec>, src: Seq<Node>) -> bool {
    &&& a.len() == src.len()
    &&& forall|j: int|
        0 <= j < a.len() ==> arg_built(#[trigger] a[j], src[j]->Dict_0@, Seq::empty(), true)
}

/// One level of a compiled command against the entries `e` of its
/// description: name, display texts, settings and arguments in document
/// order, and the subcommands under their names.
pub open spec fn level_built(c: Command, e: Seq<(String, Node)>, default_name: Seq<char>) -> bool {
    &&& c.name@ == match name_entry(e) {
        Some(t) => t,
        None => default_name,
    }
    &&& meta_view(c.metadata@) == meta_of(e)
    &&& c.settings@ == settings_of(e)
    &&& args_built(c.flags@, named_args_of(e, CommandKey::Flags), false)
    &&& args_built(c.opts@, named_args_of(e, CommandKey::Opts), true)
    &&& positionals_built(c.args@, positionals_of(e))
    &&& c.subcommands@.len() == named_args_of(e, CommandKey::Subcommands).len()
    &&& forall|j: int|
        0 <= j < c.subcommands@.len() ==> (#[trigger] c.subcommands@[j]).name@ == command_name_of(
            named_args_of(e, CommandKey::Subcommands)[j].1,
            named_args_of(e, CommandKey::Subcommands)[j].0,
        )
}

spec fn seen_ok(seen: Seq<String>, names: Seq<Seq<char>>) -> bool {
    &&& sorted(views(seen))
    &&& views(seen).to_set() == names.to_set()
    &&& names.no_duplicates()
}

proof fn lemma_within_trans(path: Seq<char>, inner: Seq<char>, e: SchemaError)
    requires
        inner.len() >= path.len(),
        inner.subrange(0, path.len() as int) == path,
        within(inner, e),
    ensures
        within(path, e),
{
    assert(e.at().subrange(0, path.len() as int) =~= inner.subrange(0, path.len() as int));
}

proof fn lemma_dup_prefix(s: Seq<Seq<char>>, m: int)
    requires
        0 <= m <= s.len(),
        !s.subrange(0, m).no_duplicates(),
    ensures
        !s.no_duplicates(),
{
    let t = s.subrange(0, m);
    let (i, j) = choose|i: int, j: int| 0 <= i < t.len() && 0 <= j < t.len() && i != j && t[i] == t[j];
    assert(s[i] == s[j]);
}

pub(crate) proof fn lemma_level_names_prefix(e: Seq<(String, Node)>, i: int)
    requires
        0 <= i <= e.len(),
    ensures
        level_names(e.subrange(0, i)).len() <= level_names(e).len(),
        level_names(e).subrange(0, level_names(e.subrange(0, i)).len() as int) == level_names(
            e.subrange(0, i),
        ),
    decreases e.len() - i,
{
    if i == e.len() {
        assert(e.subrange(0, i) =~= e);
        assert(level_names(e).subrange(0, level_names(e).len() as int) =~= level_names(e));
    } else {
        let d = e.drop_last();
        assert(d.subrange(0, i) =~= e.subrange(0, i));
        lemma_level_names_prefix(d, i);
        let p = level_names(e.subrange(0, i));
        assert(level_names(e).subrange(0, p.len() as int) =~= level_names(d).subrange(
            0,
            p.len() as int,
        ));
    }
}

fn note_name(
    seen: &mut Vec<String>,
    name: &String,
    path: &String,
    Ghost(names): Ghost<Seq<Seq<char>>>,
) -> (r: Result<(), SchemaError>)
    requires
        seen_ok(old(seen)@, names),
    ensures
        r is Ok <==> names.push(name@).no_duplicates(),
        r is Ok ==> seen_ok(final(seen)@, names.push(name@)),
        match r {
            Err(e) => e.at() == path@,
            Ok(()) => true,
        },
{
    let ghost before = views(seen@);
    if insert_sorted(seen, name.clone()) {
        proof {
            let np = names.push(name@);
            assert(!names.contains(name@)) by {
                if names.contains(name@) {
                    assert(names.to_set().contains(name@));
                    assert(before.to_set().contains(name@));
                }
            }
            assert(np.to_set() =~= names.to_set().insert(name@)) by {
                assert forall|x| np.to_set().contains(x) implies names.to_set().insert(
                    name@,
                ).contains(x) by {
                    let k = choose|k: int| 0 <= k < np.len() && np[k] == x;
                    if k < names.len() {
                        assert(names.contains(x));
                    }
                }
                assert forall|x| names.to_set().insert(name@).contains(x) implies np.to_set().contains(
                    x,
                ) by {
                    if x == name@ {
                        assert(np[names.len() as int] == x);
                    } else {
                        let k = choose|k: int| 0 <= k < names.len() && names[k] == x;
                        assert(np[k] == x);
                    }
                }
            }
            assert forall|a: int, b: int| 0 <= a < np.len() && 0 <= b < np.len() && a != b
                implies np[a] != np[b] by {
                if a == names.len() {
                    assert(names.contains(np[b]) || np[b] != name@);
                } else if b == names.len() {
                    assert(names.contains(np[a]) || np[a] != name@);
                }
            }
        }
        Ok(())
    } else {
        proof {
            assert(before.to_set().contains(name@));
            assert(names.to_set().contains(name@));
            let k = choose|k: int| 0 <= k < names.len() && names[k] == name@;
            assert(names.push(name@)[k] == names.push(name@)[names.len() as int]);
        }
        Err(SchemaError::DuplicateName { name: name.clone(), path: path.clone() })
    }
}

fn compile_settings(v: &Node, path: &String) -> (r: Result<Vec<Setting>, SchemaError>)
    ensures
        r is Ok <==> (v is List && forall|j: int|
            0 <= j < v->List_0@.len() ==> setting_item_ok(#[trigger] v->List_0@[j])),
        match r {
            Ok(s) => s@ == setting_list(v->List_0@),
            Err(e) => e.at() == path@,
        },
{
    let items = match v {
        Node::List(items) => items,
        _ => {
            return Err(SchemaError::Expected { what: Expectation::Sequence, path: path.clone() });
        },
    };
    let mut out: Vec<Setting> = Vec::new();
    let mut j: usize = 0;
    while j < items.len()
        invariant
            *v == Node::List(*items),
            j <= items.len(),
            out@ == setting_list(items@).subrange(0, j as int),
            forall|k: int| 0 <= k < j ==> setting_item_ok(#[trigger] items@[k]),
        decreases items.len() - j,
    {
        match &items[j] {
            Node::Str(t) => match setting_from_name(t.as_str()) {
                Some(st) => {
                    out.push(st);
                    assert(out@ =~= setting_list(items@).subrange(0, j + 1));
                },
                None => {
                    assert(!setting_item_ok(v->List_0@[j as int]));
                    return Err(SchemaError::UnknownSetting { name: t.clone(), path: path.clone() });
                },
            },
            _ => {
                assert(!setting_item_ok(v->List_0@[j as int]));
                return Err(SchemaError::Expected { what: Expectation::Text, path: path.clone() });
            },
        }
        j = j + 1;
    }
    assert(setting_list(items@).subrange(0, j as int) =~= setting_list(items@));
    Ok(out)
}

/// Compiles the flags or options under one key.
fn add_named_args(
    list: &mut Vec<ArgSpec>,
    seen: &mut Vec<String>,
    v: &Node,
    takes_value: bool,
    path: &String,
    Ghost(names): Ghost<Seq<Seq<char>>>,
) -> (r: Result<(), SchemaError>)
    requires
        seen_ok(old(seen)@, names),
    ensures
        r is Ok <==> (v is Dict && (forall|j: int|
            0 <= j < v->Dict_0@.len() ==> arg_node_ok((#[trigger] v->Dict_0@[j]).1)) && (names
            + dict_arg_names(v->Dict_0@)).no_duplicates()),
        r is Ok ==> {
            &&& seen_ok(final(seen)@, names + dict_arg_names(v->Dict_0@))
            &&& final(list)@.len() == old(list)@.len() + v->Dict_0@.len()
            &&& final(list)@.subrange(0, old(list)@.len() as int) == old(list)@
            &&& args_built(
                final(list)@.subrange(old(list)@.len() as int, final(list)@.len() as int),
                dict_entries(v->Dict_0@),
                takes_value,
            )
        },
        match r {
            Err(e) => within(path@, e),
            Ok(()) => true,
        },
{
    assert(path@.subrange(0, path@.len() as int) =~= path@);
    let fs = match v {
        Node::Dict(fs) => fs,
        _ => {
            return Err(SchemaError::Expected { what: Expectation::Mapping, path: path.clone() });
        },
    };
    let ghost start = list@;
    let ghost all = dict_arg_names(fs@);
    let ghost src = dict_entries(fs@);
    let mut j: usize = 0;
    assert(names + all.subrange(0, 0) =~= names);
    while j < fs.len()
        invariant
            *v == Node::Dict(*fs),
            all == dict_arg_names(fs@),
            src == dict_entries(fs@),
            j <= fs.len(),
            seen_ok(seen@, names + all.subrange(0, j as int)),
            list@.len() == start.len() + j,
            list@.subrange(0, start.len() as int) == start,
            args_built(list@.subrange(start.len() as int, list@.len() as int), src.subrange(0, j as int), takes_value),
            forall|k: int| 0 <= k < j ==> arg_node_ok((#[trigger] fs@[k]).1),
        decreases fs.len() - j,
    {
        let p = extend_path(path, fs[j].0.as_str());
        let a = match compile_arg(&fs[j].1, &fs[j].0, takes_value, &p) {
            Ok(a) => a,
            Err(err) => {
                assert(!arg_node_ok(v->Dict_0@[j as int].1));
                assert(err.at() == p@);
                assert(p@.subrange(0, path@.len() as int) =~= path@);
                return Err(err);
            },
        };
        assert(a.name@ == all[j as int]);
        assert((names + all.subrange(0, j as int)).push(all[j as int]) =~= names + all.subrange(
            0,
            j + 1,
        ));
        match note_name(seen, &a.name, path, Ghost(names + all.subrange(0, j as int))) {
            Ok(()) => {},
            Err(err) => {
                proof {
                    let full = names + all;
                    assert(full.subrange(0, names.len() + j + 1) =~= names + all.subrange(0, j + 1));
                    lemma_dup_prefix(full, names.len() + j + 1);
                    assert(err.at().subrange(0, path@.len() as int) =~= path@);
                }
                return Err(err);
            },
        }
        let ghost before = list@;
        list.push(a);
        proof {
            let built = list@.subrange(start.len() as int, list@.len() as int);
            assert(built =~= before.subrange(start.len() as int, before.len() as int).push(a));
            assert(list@.subrange(0, start.len() as int) =~= start);
            assert forall|k: int| 0 <= k < built.len() implies arg_built(
                #[trigger] built[k],
                src.subrange(0, j + 1)[k].1->Dict_0@,
                src.subrange(0, j + 1)[k].0,
                takes_value,
            ) by {
                if k < j {
                    assert(built[k] == before.subrange(start.len() as int, before.len() as int)[k]);
                    assert(src.subrange(0, j + 1)[k] == src.subrange(0, j as int)[k]);
                }
            }
        }
        j = j + 1;
    }
    assert(all.subrange(0, j as int) =~= all);
    assert(src.subrange(0, j as int) =~= src);
    Ok(())
}

proof fn lemma_args_built_concat(
    whole: Seq<ArgSpec>,
    m: int,
    a: Seq<(Seq<char>, Node)>,
    b: Seq<(Seq<char>, Node)>,
    takes_value: bool,
)
    requires
        0 <= m <= whole.len(),
        args_built(whole.subrange(0, m), a, takes_value),
        args_built(whole.subrange(m, whole.len() as int), b, takes_value),
    ensures
        args_built(whole, a + b, takes_value),
{
    assert forall|j: int| 0 <= j < whole.len() implies arg_built(
        #[trigger] whole[j],
        (a + b)[j].1->Dict_0@,
        (a + b)[j].0,
        takes_value,
    ) by {
        if j < m {
            assert(whole.subrange(0, m)[j] == whole[j]);
        } else {
            assert(whole.subrange(m, whole.len() as int)[j - m] == whole[j]);
        }
    }
}

proof fn lemma_positionals_built_concat(whole: Seq<ArgSpec>, m: int, a: Seq<Node>, b: Seq<Node>)
    requires
        0 <= m <= whole.len(),
        positionals_built(whole.subrange(0, m), a),
        positionals_built(whole.subrange(m, whole.len() as int), b),
    ensures
        positionals_built(whole, a + b),
{
    assert forall|j: int| 0 <= j < whole.len() implies arg_built(
        #[trigger] whole[j],
        (a + b)[j]->Dict_0@,
        Seq::empty(),
        true,
    ) by {
        if j < m {
            assert(whole.subrange(0, m)[j] == whole[j]);
        } else {
            assert(whole.subrange(m, whole.len() as int)[j - m] == whole[j]);
        }
    }
}

/// Whether an argument description holds a `name` entry with a text.
fn has_name(e: &Vec<(String, Node)>) -> (r: bool)
    ensures
        r == (text_at(e@, ArgKey::Name) is Some),
{
    let mut found = false;
    let mut i: usize = 0;
    while i < e.len()
        invariant
            i <= e.len(),
            found == (text_at(e@.subrange(0, i as int), ArgKey::Name) is Some),
        decreases e.len() - i,
    {
        assert(e@.subrange(0, i + 1).drop_last() =~= e@.subrange(0, i as int));
        if crate::schema::arg_key(e[i].0.as_str()) == Some(ArgKey::Name) {
            found = matches!(e[i].1, Node::Str(_));
        }
        i = i + 1;
    }
    assert(e@.subrange(0, i as int) =~= e@);
    found
}

/// Compiles the positional arguments under one key.
fn add_positionals(
    list: &mut Vec<ArgSpec>,
    seen: &mut Vec<String>,
    v: &Node,
    path: &String,
    Ghost(names): Ghost<Seq<Seq<char>>>,
) -> (r: Result<(), SchemaError>)
    requires
        seen_ok(old(seen)@, names),
    ensures
        r is Ok <==> (v is List && (forall|j: int|
            0 <= j < v->List_0@.len() ==> positional_ok(#[trigger] v->List_0@[j])) && (names
            + list_arg_names(v->List_0@)).no_duplicates()),
        r is Ok ==> {
            &&& seen_ok(final(seen)@, names + list_arg_names(v->List_0@))
            &&& final(list)@.len() == old(list)@.len() + v->List_0@.len()
            &&& final(list)@.subrange(0, old(list)@.len() as int) == old(list)@
            &&& positionals_built(
                final(list)@.subrange(old(list)@.len() as int, final(list)@.len() as int),
                v->List_0@,
            )
        },
        match r {
            Err(e) => within(path@, e),
            Ok(()) => true,
        },
{
    assert(path@.subrange(0, path@.len() as int) =~= path@);
    let items = match v {
        Node::List(items) => items,
        _ => {
            return Err(SchemaError::Expected { what: Expectation::Sequence, path: path.clone() });
        },
    };
    let ghost start = list@;
    let ghost all = list_arg_names(items@);
    let mut j: usize = 0;
    assert(names + all.subrange(0, 0) =~= names);
    while j < items.len()
        invariant
            *v == Node::List(*items),
            all == list_arg_names(items@),
            j <= items.len(),
            seen_ok(seen@, names + all.subrange(0, j as int)),
            list@.len() == start.len() + j,
            list@.subrange(0, start.len() as int) == start,
            positionals_built(
                list@.subrange(start.len() as int, list@.len() as int),
                items@.subrange(0, j as int),
            ),
            forall|k: int| 0 <= k < j ==> positional_ok(#[trigger] items@[k]),
        decreases items.len() - j,
    {
        let mut index = String::new();
        push_decimal(&mut index, j as u64);
        let p = extend_path(path, index.as_str());
        assert(p@.subrange(0, path@.len() as int) =~= path@);
        let empty = String::new();
        let a = match compile_arg(&items[j], &empty, true, &p) {
            Ok(a) => a,
            Err(err) => {
                assert(!positional_ok(v->List_0@[j as int]));
                return Err(err);
            },
        };
        let named = match &items[j] {
            Node::Dict(e) => has_name(e),
            _ => false,
        };
        if !named {
            assert(!positional_ok(v->List_0@[j as int]));
            return Err(SchemaError::MissingName { path: p });
        }
        assert(a.name@ == all[j as int]);
        assert((names + all.subrange(0, j as int)).push(all[j as int]) =~= names + all.subrange(
            0,
            j + 1,
        ));
        match note_name(seen, &a.name, path, Ghost(names + all.subrange(0, j as int))) {
            Ok(()) => {},
            Err(err) => {
                proof {
                    let full = names + all;
                    assert(full.subrange(0, names.len() + j + 1) =~= names + all.subrange(0, j + 1));
                    lemma_dup_prefix(full, names.len() + j + 1);
                    assert(err.at().subrange(0, path@.len() as int) =~= path@);
                }
                return Err(err);
            },
        }
        let ghost before = list@;
        list.push(a);
        proof {
            let built = list@.subrange(start.len() as int, list@.len() as int);
            assert(built =~= before.subrange(start.len() as int, before.len() as int).push(a));
            assert(list@.subrange(0, start.len() as int) =~= start);
            assert forall|k: int| 0 <= k < built.len() implies arg_built(
                #[trigger] built[k],
                items@.subrange(0, j + 1)[k]->Dict_0@,
                Seq::empty(),
                true,
            ) by {
                if k < j {
                    assert(built[k] == before.subrange(start.len() as int, before.len() as int)[k]);
                    assert(items@.subrange(0, j + 1)[k] == items@.subrange(0, j as int)[k]);
                }
            }
        }
        j = j + 1;
    }
    assert(all.subrange(0, j as int) =~= all);
    assert(items@.subrange(0, j as int) =~= items@);
    Ok(())
}

pub open spec fn subs_compiled(subs: Seq<Command>, src: Seq<(Seq<char>, Node)>) -> bool {
    &&& subs.len() == src.len()
    &&& forall|x: int| 0 <= x < subs.len() ==> compiled_from(#[trigger] subs[x], src[x].1, src[x].0)
}

/// Compiles the subcommands under one key.
fn add_subcommands(
    list: &mut Vec<Command>,
    seen: &mut Vec<String>,
    v: &Node,
    path: &String,
    Ghost(names): Ghost<Seq<Seq<char>>>,
) -> (r: Result<(), SchemaError>)
    requires
        seen_ok(old(seen)@, names),
    ensures
        r is Ok <==> (v is Dict && (forall|j: int|
            0 <= j < v->Dict_0@.len() ==> command_ok((#[trigger] v->Dict_0@[j]).1)) && (names
            + dict_command_names(v->Dict_0@)).no_duplicates()),
        r is Ok ==> {
            &&& seen_ok(final(seen)@, names + dict_command_names(v->Dict_0@))
            &&& final(list)@.subrange(0, old(list)@.len() as int) == old(list)@
            &&& final(list)@.len() == old(list)@.len() + v->Dict_0@.len()
            &&& forall|k: int|
                0 <= k < v->Dict_0@.len() ==> (#[trigger] final(list)@[old(list)@.len() + k]).name@
                    == dict_command_names(v->Dict_0@)[k]
            &&& subs_compiled(
                final(list)@.subrange(old(list)@.len() as int, final(list)@.len() as int),
                dict_entries(v->Dict_0@),
            )
        },
        match r {
            Err(e) => within(path@, e),
            Ok(()) => true,
        },
    decreases *v,
{
    assert(path@.subrange(0, path@.len() as int) =~= path@);
    let ss = match v {
        Node::Dict(ss) => ss,
        _ => {
            return Err(SchemaError::Expected { what: Expectation::Mapping, path: path.clone() });
        },
    };
    let ghost start = list@;
    let ghost all = dict_command_names(ss@);
    let mut j: usize = 0;
    assert(names + all.subrange(0, 0) =~= names);
    while j < ss.len()
        invariant
            *v == Node::Dict(*ss),
            all == dict_command_names(ss@),
            j <= ss.len(),
            seen_ok(seen@, names + all.subrange(0, j as int)),
            list@.len() == start.len() + j,
            list@.subrange(0, start.len() as int) == start,
            forall|k: int| 0 <= k < j ==> (#[trigger] list@[start.len() + k]).name@ == all[k],
            forall|k: int| 0 <= k < j ==> command_ok((#[trigger] ss@[k]).1),
            subs_compiled(
                list@.subrange(start.len() as int, list@.len() as int),
                dict_entries(ss@).subrange(0, j as int),
            ),
        decreases ss.len() - j,
    {
        let p = extend_path(path, ss[j].0.as_str());
        assert(p@.subrange(0, path@.len() as int) =~= path@);
        proof {
            assert(decreases_to!(*v => (*v)->Dict_0));
            assert(decreases_to!((*v)->Dict_0 => (*v)->Dict_0@));
            assert(decreases_to!((*v)->Dict_0@ => ss@[j as int]));
            assert(decreases_to!(ss@[j as int] => ss@[j as int].1));
        }
        let c = match compile_command(&ss[j].1, &ss[j].0, &p) {
            Ok(c) => c,
            Err(err) => {
                assert(!command_ok(v->Dict_0@[j as int].1));
                proof {
                    assert(err.at().subrange(0, path@.len() as int) =~= err.at().subrange(
                        0,
                        p@.len() as int,
                    ).subrange(0, path@.len() as int));
                }
                return Err(err);
            },
        };
        assert(c.name@ == all[j as int]);
        assert((names + all.subrange(0, j as int)).push(all[j as int]) =~= names + all.subrange(
            0,
            j + 1,
        ));
        match note_name(seen, &c.name, path, Ghost(names + all.subrange(0, j as int))) {
            Ok(()) => {},
            Err(err) => {
                proof {
                    let full = names + all;
                    assert(full.subrange(0, names.len() + j + 1) =~= names + all.subrange(0, j + 1));
                    lemma_dup_prefix(full, names.len() + j + 1);
                    assert(err.at().subrange(0, path@.len() as int) =~= path@);
                }
                return Err(err);
            },
        }
        let ghost before = list@;
        list.push(c);
        proof {
            assert(list@.subrange(0, start.len() as int) =~= start);
            assert forall|k: int| 0 <= k < j + 1 implies (#[trigger] list@[start.len() + k]).name@
                == all[k] by {
                if k < j {
                    assert(list@[start.len() + k] == before[start.len() + k]);
                }
            }
            let built = list@.subrange(start.len() as int, list@.len() as int);
            let src = dict_entries(ss@).subrange(0, j + 1);
            assert(built =~= before.subrange(start.len() as int, before.len() as int).push(c));
            assert forall|x: int| 0 <= x < built.len() implies compiled_from(
                #[trigger] built[x],
                src[x].1,
                src[x].0,
            ) by {
                if x < j {
                    assert(built[x] == before.subrange(start.len() as int, before.len() as int)[x]);
                    assert(src[x] == dict_entries(ss@).subrange(0, j as int)[x]);
                }
            }
        }
        j = j + 1;
    }
    assert(all.subrange(0, j as int) =~= all);
    assert(dict_entries(ss@).subrange(0, j as int) =~= dict_entries(ss@));
    Ok(())
}

fn apply_command_entry(
    c: &mut Command,
    seen: &mut Vec<String>,
    entry: &(String, Node),
    path: &String,
    Ghost(pre): Ghost<Seq<(String, Node)>>,
    Ghost(default_name): Ghost<Seq<char>>,
) -> (r: Result<(), SchemaError>)
    requires
        level_built(*old(c), pre, default_name),
        seen_ok(old(seen)@, level_names(pre)),
        subs_compiled(old(c).subcommands@, named_args_of(pre, CommandKey::Subcommands)),
    ensures
        r is Ok <==> entry_deep_ok(*entry) && level_names(pre.push(*entry)).no_duplicates(),
        r is Ok ==> level_built(*final(c), pre.push(*entry), default_name) && seen_ok(
            final(seen)@,
            level_names(pre.push(*entry)),
        ) && subs_compiled(
            final(c).subcommands@,
            named_args_of(pre.push(*entry), CommandKey::Subcommands),
        ),
        match r {
            Err(e) => within(path@, e),
            Ok(()) => true,
        },
    decreases *entry,
{
    let ghost post = pre.push(*entry);
    assert(post.drop_last() =~= pre);
    assert(path@.subrange(0, path@.len() as int) =~= path@);
    let k = match command_key(entry.0.as_str()) {
        Some(k) => k,
        None => {
            return Err(SchemaError::UnrecognizedKey { key: entry.0.clone(), path: path.clone() });
        },
    };
    let v = &entry.1;
    let kp = extend_path(path, entry.0.as_str());
    assert(kp@.subrange(0, path@.len() as int) =~= path@);
    assert(kp@.subrange(0, kp@.len() as int) =~= kp@);
    let ghost names = level_names(pre);
    match k {
        CommandKey::Settings => {
            let mut s = match compile_settings(v, &kp) {
                Ok(x) => x,
                Err(err) => {
                    proof {
                        lemma_within_trans(path@, kp@, err);
                    }
                    return Err(err);
                },
            };
            c.settings.append(&mut s);
            assert(level_names(post) =~= names);
        },
        CommandKey::Flags => {
            let ghost before = c.flags@;
            match add_named_args(&mut c.flags, seen, v, false, &kp, Ghost(names)) {
                Ok(()) => {},
                Err(err) => {
                    proof {
                        lemma_within_trans(path@, kp@, err);
                    }
                    return Err(err);
                },
            }
            proof {
                lemma_args_built_concat(
                    c.flags@,
                    before.len() as int,
                    named_args_of(pre, CommandKey::Flags),
                    dict_entries(v->Dict_0@),
                    false,
                );
                assert(named_args_of(post, CommandKey::Flags) =~= named_args_of(pre, CommandKey::Flags) + dict_entries(v->Dict_0@));
                assert(level_names(post) =~= names + dict_arg_names(v->Dict_0@));
            }
        },
        CommandKey::Opts => {
            let ghost before = c.opts@;
            match add_named_args(&mut c.opts, seen, v, true, &kp, Ghost(names)) {
                Ok(()) => {},
                Err(err) => {
                    proof {
                        lemma_within_trans(path@, kp@, err);
                    }
                    return Err(err);
                },
            }
            proof {
                lemma_args_built_concat(
                    c.opts@,
                    before.len() as int,
                    named_args_of(pre, CommandKey::Opts),
                    dict_entries(v->Dict_0@),
                    true,
                );
                assert(named_args_of(post, CommandKey::Opts) =~= named_args_of(pre, CommandKey::Opts) + dict_entries(v->Dict_0@));
                assert(level_names(post) =~= names + dict_arg_names(v->Dict_0@));
            }
        },
        CommandKey::Args => {
            let ghost before = c.args@;
            match add_positionals(&mut c.args, seen, v, &kp, Ghost(names)) {
                Ok(()) => {},
                Err(err) => {
                    proof {
                        lemma_within_trans(path@, kp@, err);
                    }
                    return Err(err);
                },
            }
            proof {
                lemma_positionals_built_concat(c.args@, before.len() as int, positionals_of(pre), v->List_0@);
                assert(positionals_of(post) =~= positionals_of(pre) + v->List_0@);
                assert(level_names(post) =~= names + list_arg_names(v->List_0@));
            }
        },
        CommandKey::Subcommands => {
            let ghost before = c.subcommands@;
            proof {
                assert(decreases_to!(*entry => entry.1));
            }
            match add_subcommands(&mut c.subcommands, seen, v, &kp, Ghost(names)) {
                Ok(()) => {},
                Err(err) => {
                    proof {
                        lemma_within_trans(path@, kp@, err);
                    }
                    return Err(err);
                },
            }
            proof {
                let ss = v->Dict_0@;
                let src = named_args_of(post, CommandKey::Subcommands);
                assert(src =~= named_args_of(pre, CommandKey::Subcommands) + dict_entries(ss));
                assert(level_names(post) =~= names + dict_command_names(ss));
                let added = c.subcommands@.subrange(before.len() as int, c.subcommands@.len() as int);
                assert forall|x: int| 0 <= x < c.subcommands@.len() implies compiled_from(
                    #[trigger] c.subcommands@[x],
                    src[x].1,
                    src[x].0,
                ) by {
                    if x < before.len() {
                        assert(c.subcommands@[x] == before[x]);
                        assert(src[x] == named_args_of(pre, CommandKey::Subcommands)[x]);
                    } else {
                        assert(c.subcommands@[x] == added[x - before.len()]);
                        assert(src[x] == dict_entries(ss)[x - before.len()]);
                    }
                }
                assert forall|j: int| 0 <= j < c.subcommands@.len() implies (#[trigger] c.subcommands@[j]).name@
                    == command_name_of(src[j].1, src[j].0) by {
                    if j < before.len() {
                        assert(c.subcommands@[j] == before[j]);
                    } else {
                        assert(c.subcommands@[before.len() + (j - before.len())] == c.subcommands@[j]);
                    }
                }
            }
        },
        CommandKey::Name => {
            let t = match text_of(v, &kp) {
                Ok(x) => x,
                Err(err) => {
                    proof {
                        lemma_within_trans(path@, kp@, err);
                    }
                    return Err(err);
                },
            };
            c.name = t;
            assert(level_names(post) =~= names);
        },
        _ => {
            let t = match text_of(v, &kp) {
                Ok(x) => x,
                Err(err) => {
                    proof {
                        lemma_within_trans(path@, kp@, err);
                    }
                    return Err(err);
                },
            };
            let ghost old_meta = c.metadata@;
            c.metadata.push((k, t));
            assert(meta_view(c.metadata@) =~= meta_view(old_meta).push((k, t@)));
            assert(meta_of(post) =~= meta_of(pre) + seq![(k, t@)]);
            assert(level_names(post) =~= names);
            assert(settings_of(post) =~= settings_of(pre));
            assert(named_args_of(post, CommandKey::Flags) =~= named_args_of(pre, CommandKey::Flags));
            assert(named_args_of(post, CommandKey::Opts) =~= named_args_of(pre, CommandKey::Opts));
            assert(named_args_of(post, CommandKey::Subcommands) =~= named_args_of(pre, CommandKey::Subcommands));
            assert(positionals_of(post) =~= positionals_of(pre));
            assert(name_entry(post) == name_entry(pre));
            assert(meta_view(c.metadata@) =~= meta_of(post));
        },
    }
    assert(level_built(*c, post, default_name));
    assert(subs_compiled(c.subcommands@, named_args_of(post, CommandKey::Subcommands)));
    Ok(())
}

/// Compiles a command description, and recursively its subcommands; the
/// command is named by its `name` entry if it has one, else `default_name`.
/// Every error carries the dotted path, from `path` on, where it was found.
pub fn compile_command(n: &Node, default_name: &String, path: &String) -> (r: Result<
    Command,
    SchemaError,
>)
    ensures
        r is Ok <==> command_ok(*n),
        match r {
            Ok(c) => compiled_from(c, *n, default_name@),
            Err(e) => within(path@, e),
        },
    decreases *n,
{
    assert(path@.subrange(0, path@.len() as int) =~= path@);
    let entries = match n {
        Node::Dict(e) => e,
        _ => {
            return Err(SchemaError::Expected { what: Expectation::Mapping, path: path.clone() });
        },
    };
    let mut c = Command {
        name: default_name.clone(),
        metadata: Vec::new(),
        settings: Vec::new(),
        flags: Vec::new(),
        opts: Vec::new(),
        args: Vec::new(),
        subcommands: Vec::new(),
    };
    let mut seen: Vec<String> = Vec::new();
    let ghost e = entries@;
    proof {
        assert(e.subrange(0, 0) =~= Seq::<(String, Node)>::empty());
        assert(meta_view(c.metadata@) =~= Seq::<(CommandKey, Seq<char>)>::empty());
        assert(c.settings@ =~= Seq::<Setting>::empty());
        assert(views(seen@) =~= Seq::<Seq<char>>::empty());
        assert(views(seen@).to_set() =~= Seq::<Seq<char>>::empty().to_set());
    }
    let mut i: usize = 0;
    while i < entries.len()
        invariant
            *n == Node::Dict(*entries),
            e == entries@,
            i <= e.len(),
            level_built(c, e.subrange(0, i as int), default_name@),
            seen_ok(seen@, level_names(e.subrange(0, i as int))),
            subs_compiled(c.subcommands@, named_args_of(e.subrange(0, i as int), CommandKey::Subcommands)),
            forall|k: int| 0 <= k < i ==> entry_deep_ok(#[trigger] e[k]),
        decreases e.len() - i,
    {
        let ghost pre = e.subrange(0, i as int);
        proof {
            assert(e.subrange(0, i + 1) =~= pre.push(e[i as int]));
            assert(decreases_to!(*n => (*n)->Dict_0));
            assert(decreases_to!((*n)->Dict_0 => (*n)->Dict_0@));
            assert(decreases_to!((*n)->Dict_0@ => e[i as int]));
        }
        match apply_command_entry(&mut c, &mut seen, &entries[i], path, Ghost(pre), Ghost(default_name@)) {
            Ok(()) => {},
            Err(err) => {
                proof {
                    assert(n->Dict_0@[i as int] == e[i as int]);
                    if entry_deep_ok(e[i as int]) {
                        lemma_level_names_prefix(e, i + 1);
                        lemma_dup_prefix(level_names(e), level_names(e.subrange(0, i + 1)).len() as int);
                    }
                }
                return Err(err);
            },
        }
        i = i + 1;
    }
    assert(e.subrange(0, i as int) =~= e);
    assert(compiled_from(c, *n, default_name@));
    Ok(c)
}

pub(crate) proof fn lemma_named_args_origin(e: Seq<(String, Node)>, k: CommandKey, x: int)
    requires
        0 <= x < named_args_of(e, k).len(),
    ensures
        exists|i: int, j: int|
            0 <= i < e.len() && key_of(e[i]) == Some(k) && e[i].1 is Dict && 0 <= j < e[i].1->Dict_0@.len()
                && named_args_of(e, k)[x] == ((#[trigger] e[i].1->Dict_0@[j]).0@, e[i].1->Dict_0@[j].1),
    decreases e.len(),
{
    let d = e.drop_last();
    let pre = named_args_of(d, k);
    if x < pre.len() {
        lemma_named_args_origin(d, k, x);
        let (i, j) = choose|i: int, j: int|
            0 <= i < d.len() && key_of(d[i]) == Some(k) && d[i].1 is Dict && 0 <= j < d[i].1->Dict_0@.len()
                && named_args_of(d, k)[x] == ((#[trigger] d[i].1->Dict_0@[j]).0@, d[i].1->Dict_0@[j].1);
        assert(e[i] == d[i]);
    } else {
        let i = e.len() - 1;
        let j = x - pre.len();
        assert(e[i] == e.last());
        assert(named_args_of(e, k)[x] == dict_entries(e.last().1->Dict_0@)[j]);
    }
}

/// Whether `c` is what the description `n` compiles to, at every level.
pub open spec fn compiled_from(c: Command, n: Node, default_name: Seq<char>) -> bool
    decreases n,
    via compiled_from_decreases
{
    match n {
        Node::Dict(e) => level_built(c, e@, default_name) && forall|x: int|
            0 <= x < c.subcommands@.len() ==> compiled_from(
                #[trigger] c.subcommands@[x],
                named_args_of(e@, CommandKey::Subcommands)[x].1,
                named_args_of(e@, CommandKey::Subcommands)[x].0,
            ),
        _ => false,
    }
}

#[via_fn]
proof fn compiled_from_decreases(c: Command, n: Node, default_name: Seq<char>) {
    match n {
        Node::Dict(e) => {
            if level_built(c, e@, default_name) {
                assert forall|x: int| 0 <= x < c.subcommands@.len() implies decreases_to!(
                    n => named_args_of(e@, CommandKey::Subcommands)[x].1
                ) by {
                    lemma_named_args_origin(e@, CommandKey::Subcommands, x);
                    let (i, j) = choose|i: int, j: int|
                        0 <= i < e@.len() && e@[i].1 is Dict && 0 <= j < e@[i].1->Dict_0@.len()
                            && named_args_of(e@, CommandKey::Subcommands)[x] == (
                            (#[trigger] e@[i].1->Dict_0@[j]).0@,
                            e@[i].1->Dict_0@[j].1,
                        );
                    assert(decreases_to!(n => n->Dict_0));
                    assert(decreases_to!(n->Dict_0 => n->Dict_0@));
                    assert(decreases_to!(n->Dict_0@ => e@[i]));
                    assert(decreases_to!(e@[i] => e@[i].1));
                    assert(decreases_to!(e@[i].1 => e@[i].1->Dict_0));
                    let ss = e@[i].1->Dict_0;
                    assert(decreases_to!(ss => ss@));
                    assert(decreases_to!(ss@ => ss@[j]));
                    assert(decreases_to!(ss@[j] => ss@[j].1));
                }
            }
        },
        _ => {},
    }
}

/// Compiles a schema document into its command tree and the shape that
/// output is resolved against; fails exactly where the document does not
/// compile, with the path of the first defect found.
pub fn compile(doc: &Node, default_name: &String) -> (r: Result<(Command, CommandShape), SchemaError>)
    ensures
        r is Ok <==> command_ok(*doc),
        match r {
            Ok((c, s)) => compiled_from(c, *doc, default_name@) && shape_of(c, s),
            Err(e) => within(Seq::empty(), e),
        },
{
    let root = String::new();
    let c = match compile_command(doc, default_name, &root) {
        Ok(c) => c,
        Err(e) => {
            return Err(e);
        },
    };
    proof {
        lemma_compiled_kinds_disjoint(c, *doc, default_name@);
    }
    let s = c.shape().unwrap();
    Ok((c, s))
}

} // verus!
