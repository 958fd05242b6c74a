//! The schema document, the errors found in it, and the compilation of
//! one argument's description.
use vstd::prelude::*;
use vstd::string::*;
use crate::names::{insert_sorted, lemma_lt_total, sorted, str_lt, views};

verus! {

/// A node of a schema document.
pub enum Node {
    Null,
    Bool(bool),
    Int(i64),
    Str(String),
    List(Vec<Node>),
    Dict(Vec<(String, Node)>),
}

/// What shape of value a schema entry should have held.
#[derive(Clone, Copy, Debug, PartialEq, Eq, Structural)]
pub enum Expectation {
    Mapping,
    Sequence,
    Text,
    Boolean,
    Character,
    Position,
    TextOrSequence,
}

/// A defect of a schema document, with the dotted path where it was found.
pub enum SchemaError {
    UnrecognizedKey { key: String, path: String },
    MissingName { path: String },
    UnknownSetting { name: String, path: String },
    Expected { what: Expectation, path: String },
    DuplicateName { name: String, path: String },
}

impl SchemaError {
    /// The path of the defect.
    pub open spec fn at(&self) -> Seq<char> {
        match self {
            SchemaError::UnrecognizedKey { path, .. } => path@,
            SchemaError::MissingName { path } => path@,
            SchemaError::UnknownSetting { path, .. } => path@,
            SchemaError::Expected { path, .. } => path@,
            SchemaError::DuplicateName { path, .. } => path@,
        }
    }
}

/// `path` extended by one key.
pub open spec fn child_path(path: Seq<char>, key: Seq<char>) -> Seq<char> {
    path + seq!['.'] + key
}

pub open spec fn within(path: Seq<char>, e: SchemaError) -> bool {
    e.at().len() >= path.len() && e.at().subrange(0, path.len() as int) == path
}

pub open spec fn is_expected(e: SchemaError, w: Expectation) -> bool {
    match e {
        SchemaError::Expected { what, .. } => what == w,
        _ => false,
    }
}

pub open spec fn is_unrecognized(e: SchemaError, key: Seq<char>) -> bool {
    match e {
        SchemaError::UnrecognizedKey { key: k, .. } => k@ == key,
        _ => false,
    }
}

/// Whether the two texts are equal.
pub fn str_eq(a: &str, b: &str) -> (r: bool)
    ensures
        r == (a@ == b@),
{
    proof {
        lemma_lt_total(a@, b@);
        crate::names::lemma_lt_irreflexive(a@);
    }
    !str_lt(a, b) && !str_lt(b, a)
}

pub fn extend_path(path: &String, key: &str) -> (r: String)
    ensures
        r@ == child_path(path@, key@),
{
    proof {
        reveal_strlit(".");
        assert("."@ =~= seq!['.']);
    }
    let mut r = path.clone();
    r.append(".");
    r.append(key);
    r
}

pub open spec fn as_text(n: Node) -> Option<Seq<char>> {
    match n {
        Node::Str(s) => Some(s@),
        _ => None,
    }
}

pub open spec fn as_bool(n: Node) -> Option<bool> {
    match n {
        Node::Bool(b) => Some(b),
        _ => None,
    }
}

/// A text of exactly one character.
pub open spec fn as_char(n: Node) -> Option<char> {
    match n {
        Node::Str(s) => if s@.len() == 1 {
            Some(s@[0])
        } else {
            None
        },
        _ => None,
    }
}

/// A 1-based position.
pub open spec fn as_position(n: Node) -> Option<u64> {
    match n {
        Node::Int(i) => if i >= 1 {
            Some(i as u64)
        } else {
            None
        },
        _ => None,
    }
}

pub open spec fn text_or_empty(n: Node) -> Seq<char> {
    match n {
        Node::Str(s) => s@,
        _ => Seq::empty(),
    }
}

/// A single text or a sequence of texts, as the set of those texts.
pub open spec fn as_text_set(n: Node) -> Option<Set<Seq<char>>> {
    match n {
        Node::Str(s) => Some(set![s@]),
        Node::List(items) => if forall|i: int|
            0 <= i < items@.len() ==> (#[trigger] items@[i]) is Str {
            Some(items@.map_values(|m: Node| text_or_empty(m)).to_set())
        } else {
            None
        },
        _ => None,
    }
}

pub(crate) fn text_of(n: &Node, path: &String) -> (r: Result<String, SchemaError>)
    ensures
        match r {
            Ok(s) => as_text(*n) == Some(s@),
            Err(e) => as_text(*n) is None && e.at() == path@ && is_expected(e, Expectation::Text),
        },
{
    match n {
        Node::Str(s) => Ok(s.clone()),
        _ => Err(SchemaError::Expected { what: Expectation::Text, path: path.clone() }),
    }
}

fn bool_of(n: &Node, path: &String) -> (r: Result<bool, SchemaError>)
    ensures
        match r {
            Ok(b) => as_bool(*n) == Some(b),
            Err(e) => as_bool(*n) is None && e.at() == path@ && is_expected(e, Expectation::Boolean),
        },
{
    match n {
        Node::Bool(b) => Ok(*b),
        _ => Err(SchemaError::Expected { what: Expectation::Boolean, path: path.clone() }),
    }
}

fn char_of(n: &Node, path: &String) -> (r: Result<char, SchemaError>)
    ensures
        match r {
            Ok(c) => as_char(*n) == Some(c),
            Err(e) => as_char(*n) is None && e.at() == path@ && is_expected(e, Expectation::Character),
        },
{
    match n {
        Node::Str(s) => {
            if s.as_str().unicode_len() == 1 {
                Ok(s.as_str().get_char(0))
            } else {
                Err(SchemaError::Expected { what: Expectation::Character, path: path.clone() })
            }
        },
        _ => Err(SchemaError::Expected { what: Expectation::Character, path: path.clone() }),
    }
}

fn position_of(n: &Node, path: &String) -> (r: Result<u64, SchemaError>)
    ensures
        match r {
            Ok(p) => as_position(*n) == Some(p),
            Err(e) => as_position(*n) is None && e.at() == path@ && is_expected(e, Expectation::Position),
        },
{
    match n {
        Node::Int(i) => {
            if *i >= 1 {
                Ok(*i as u64)
            } else {
                Err(SchemaError::Expected { what: Expectation::Position, path: path.clone() })
            }
        },
        _ => Err(SchemaError::Expected { what: Expectation::Position, path: path.clone() }),
    }
}

/// Reads a text or a sequence of texts into a sorted set of texts.
fn text_set_of(n: &Node, path: &String) -> (r: Result<Vec<String>, SchemaError>)
    ensures
        match r {
            Ok(v) => sorted(views(v@)) && as_text_set(*n) == Some(views(v@).to_set()),
            Err(e) => as_text_set(*n) is None && e.at() == path@ && is_expected(
                e,
                Expectation::TextOrSequence,
            ),
        },
{
    match n {
        Node::Str(s) => {
            let mut v: Vec<String> = Vec::new();
            assert(sorted(views(v@)));
            insert_sorted(&mut v, s.clone());
            assert(views(v@).to_set() =~= set![s@]) by {
                assert(views(Seq::<String>::empty()).to_set() =~= Set::<Seq<char>>::empty());
            }
            Ok(v)
        },
        Node::List(items) => {
            let mut v: Vec<String> = Vec::new();
            let ghost texts = items@.map_values(|m: Node| text_or_empty(m));
            let mut i: usize = 0;
            assert(views(v@).to_set() =~= texts.subrange(0, 0).to_set());
            while i < items.len()
                invariant
                    i <= items.len(),
                    *n == Node::List(*items),
                    texts == items@.map_values(|m: Node| text_or_empty(m)),
                    sorted(views(v@)),
                    views(v@).to_set() == texts.subrange(0, i as int).to_set(),
                    forall|k: int| 0 <= k < i ==> (#[trigger] items@[k]) is Str,
                decreases items.len() - i,
            {
                match &items[i] {
                    Node::Str(s) => {
                        let ghost before = views(v@);
                        insert_sorted(&mut v, s.clone());
                        proof {
                            assert(texts.subrange(0, i + 1) =~= texts.subrange(0, i as int).push(
                                s@,
                            ));
                            assert(texts.subrange(0, i + 1).to_set() =~= texts.subrange(
                                0,
                                i as int,
                            ).to_set().insert(s@)) by {
                                broadcast use vstd::seq_lib::group_seq_properties;
                            }
                            if before.contains(s@) {
                                assert(before.to_set().contains(s@));
                                assert(before.to_set().insert(s@) =~= before.to_set());
                            }
                        }
                    },
                    _ => {
                        assert(!(items@[i as int] is Str));
                        return Err(
                            SchemaError::Expected {
                                what: Expectation::TextOrSequence,
                                path: path.clone(),
                            },
                        );
                    },
                }
                i = i + 1;
            }
            assert(texts.subrange(0, i as int) =~= texts);
            Ok(v)
        },
        _ => Err(SchemaError::Expected { what: Expectation::TextOrSequence, path: path.clone() }),
    }
}


/// A key that may describe an argument.
#[derive(Clone, Copy, Debug, PartialEq, Eq, Structural)]
pub enum ArgKey {
    Name,
    Long,
    Help,
    DefaultValue,
    Env,
    Required,
    Multiple,
    Short,
    ValueDelimiter,
    Aliases,
    PossibleValues,
    Requires,
    Index,
}

pub open spec fn arg_key_named(s: Seq<char>) -> Option<ArgKey> {
    if s == "name"@ {
        Some(ArgKey::Name)
    } else if s == "long"@ {
        Some(ArgKey::Long)
    } else if s == "help"@ {
        Some(ArgKey::Help)
    } else if s == "default_value"@ {
        Some(ArgKey::DefaultValue)
    } else if s == "env"@ {
        Some(ArgKey::Env)
    } else if s == "required"@ {
        Some(ArgKey::Required)
    } else if s == "multiple"@ {
        Some(ArgKey::Multiple)
    } else if s == "short"@ {
        Some(ArgKey::Short)
    } else if s == "value_delimiter"@ {
        Some(ArgKey::ValueDelimiter)
    } else if s == "aliases"@ {
        Some(ArgKey::Aliases)
    } else if s == "possible_values"@ {
        Some(ArgKey::PossibleValues)
    } else if s == "requires"@ {
        Some(ArgKey::Requires)
    } else if s == "index"@ {
        Some(ArgKey::Index)
    } else {
        None
    }
}

pub(crate) fn arg_key(s: &str) -> (r: Option<ArgKey>)
    ensures
        r == arg_key_named(s@),
{
    if str_eq(s, "name") {
        Some(ArgKey::Name)
    } else if str_eq(s, "long") {
        Some(ArgKey::Long)
    } else if str_eq(s, "help") {
        Some(ArgKey::Help)
    } else if str_eq(s, "default_value") {
        Some(ArgKey::DefaultValue)
    } else if str_eq(s, "env") {
        Some(ArgKey::Env)
    } else if str_eq(s, "required") {
        Some(ArgKey::Required)
    } else if str_eq(s, "multiple") {
        Some(ArgKey::Multiple)
    } else if str_eq(s, "short") {
        Some(ArgKey::Short)
    } else if str_eq(s, "value_delimiter") {
        Some(ArgKey::ValueDelimiter)
    } else if str_eq(s, "aliases") {
        Some(ArgKey::Aliases)
    } else if str_eq(s, "possible_values") {
        Some(ArgKey::PossibleValues)
    } else if str_eq(s, "requires") {
        Some(ArgKey::Requires)
    } else if str_eq(s, "index") {
        Some(ArgKey::Index)
    } else {
        None
    }
}

/// Whether `v` has the shape that the key `k` needs.
pub open spec fn arg_value_ok(k: ArgKey, v: Node) -> bool {
    match k {
        ArgKey::Name | ArgKey::Long | ArgKey::Help | ArgKey::DefaultValue | ArgKey::Env => as_text(v) is Some,
        ArgKey::Required | ArgKey::Multiple => as_bool(v) is Some,
        ArgKey::Short | ArgKey::ValueDelimiter => as_char(v) is Some,
        ArgKey::Aliases | ArgKey::PossibleValues | ArgKey::Requires => as_text_set(v) is Some,
        ArgKey::Index => as_position(v) is Some,
    }
}

/// The shape of value that the key `k` needs.
pub open spec fn expectation_of(k: ArgKey) -> Expectation {
    match k {
        ArgKey::Name | ArgKey::Long | ArgKey::Help | ArgKey::DefaultValue | ArgKey::Env => Expectation::Text,
        ArgKey::Required | ArgKey::Multiple => Expectation::Boolean,
        ArgKey::Short | ArgKey::ValueDelimiter => Expectation::Character,
        ArgKey::Aliases | ArgKey::PossibleValues | ArgKey::Requires => Expectation::TextOrSequence,
        ArgKey::Index => Expectation::Position,
    }
}

/// The error that a defective entry of an argument description gives.
pub open spec fn arg_entry_error(key: Seq<char>, e: SchemaError) -> bool {
    match arg_key_named(key) {
        None => is_unrecognized(e, key),
        Some(k) => is_expected(e, expectation_of(k)),
    }
}

/// The error that an argument description that does not compile gives: for
/// the first defective entry, an unknown key or a value of the wrong shape.
pub open spec fn arg_error(n: Node, e: SchemaError) -> bool {
    match n {
        Node::Dict(es) => exists|i: int|
            0 <= i < es@.len() && !arg_entry_ok((#[trigger] es@[i]).0@, es@[i].1) && (forall|k: int|
                0 <= k < i ==> arg_entry_ok((#[trigger] es@[k]).0@, es@[k].1)) && arg_entry_error(
                es@[i].0@,
                e,
            ),
        _ => is_expected(e, Expectation::Mapping),
    }
}

pub open spec fn arg_entry_ok(key: Seq<char>, v: Node) -> bool {
    match arg_key_named(key) {
        Some(k) => arg_value_ok(k, v),
        None => false,
    }
}

pub open spec fn arg_node_ok(n: Node) -> bool {
    match n {
        Node::Dict(e) => forall|i: int|
            0 <= i < e@.len() ==> arg_entry_ok((#[trigger] e@[i]).0@, e@[i].1),
        _ => false,
    }
}

/// The value under the key `k`; a later entry wins over an earlier one.
pub open spec fn entry_at(e: Seq<(String, Node)>, k: ArgKey) -> Option<Node>
    decreases e.len(),
{
    if e.len() == 0 {
        None
    } else if arg_key_named(e.last().0@) == Some(k) {
        Some(e.last().1)
    } else {
        entry_at(e.drop_last(), k)
    }
}

pub open spec fn text_at(e: Seq<(String, Node)>, k: ArgKey) -> Option<Seq<char>> {
    match entry_at(e, k) {
        Some(v) => as_text(v),
        None => None,
    }
}

pub open spec fn bool_at(e: Seq<(String, Node)>, k: ArgKey) -> bool {
    match entry_at(e, k) {
        Some(v) => as_bool(v) == Some(true),
        None => false,
    }
}

pub open spec fn char_at(e: Seq<(String, Node)>, k: ArgKey) -> Option<char> {
    match entry_at(e, k) {
        Some(v) => as_char(v),
        None => None,
    }
}

pub open spec fn position_at(e: Seq<(String, Node)>, k: ArgKey) -> Option<u64> {
    match entry_at(e, k) {
        Some(v) => as_position(v),
        None => None,
    }
}

pub open spec fn set_at(e: Seq<(String, Node)>, k: ArgKey) -> Set<Seq<char>> {
    match entry_at(e, k) {
        Some(v) => match as_text_set(v) {
            Some(s) => s,
            None => Set::empty(),
        },
        None => Set::empty(),
    }
}

pub open spec fn opt_view(o: Option<String>) -> Option<Seq<char>> {
    match o {
        Some(s) => Some(s@),
        None => None,
    }
}

pub open spec fn set_field(v: Vec<String>, s: Set<Seq<char>>) -> bool {
    sorted(views(v@)) && views(v@).to_set() == s
}

/// The compiled description of one flag, option or positional argument.
pub struct ArgSpec {
    pub name: String,
    /// False for a flag, which is counted; true for an option or a
    /// positional argument, which carries values.
    pub takes_value: bool,
    pub required: bool,
    pub multiple: bool,
    pub short: Option<char>,
    pub long: Option<String>,
    pub aliases: Vec<String>,
    pub help: Option<String>,
    pub default_value: Option<String>,
    pub possible_values: Vec<String>,
    pub value_delimiter: Option<char>,
    pub requires: Vec<String>,
    pub env: Option<String>,
    pub index: Option<u64>,
}

/// The argument that the entries `e` describe; its name is the `name` entry
/// if there is one, else `default_name`.
pub open spec fn arg_built(
    a: ArgSpec,
    e: Seq<(String, Node)>,
    default_name: Seq<char>,
    takes_value: bool,
) -> bool {
    &&& a.name@ == (match text_at(e, ArgKey::Name) {
        Some(t) => t,
        None => default_name,
    })
    &&& a.takes_value == takes_value
    &&& a.required == bool_at(e, ArgKey::Required)
    &&& a.multiple == bool_at(e, ArgKey::Multiple)
    &&& a.short == char_at(e, ArgKey::Short)
    &&& opt_view(a.long) == text_at(e, ArgKey::Long)
    &&& set_field(a.aliases, set_at(e, ArgKey::Aliases))
    &&& opt_view(a.help) == text_at(e, ArgKey::Help)
    &&& opt_view(a.default_value) == text_at(e, ArgKey::DefaultValue)
    &&& set_field(a.possible_values, set_at(e, ArgKey::PossibleValues))
    &&& a.value_delimiter == char_at(e, ArgKey::ValueDelimiter)
    &&& set_field(a.requires, set_at(e, ArgKey::Requires))
    &&& opt_view(a.env) == text_at(e, ArgKey::Env)
    &&& a.index == position_at(e, ArgKey::Index)
}

fn apply_arg_entry(
    a: &mut ArgSpec,
    entry: &(String, Node),
    path: &String,
    Ghost(pre): Ghost<Seq<(String, Node)>>,
    Ghost(default_name): Ghost<Seq<char>>,
) -> (r: Result<(), SchemaError>)
    requires
        arg_built(*old(a), pre, default_name, old(a).takes_value),
    ensures
        r is Ok <==> arg_entry_ok(entry.0@, entry.1),
        match r {
            Ok(()) => arg_built(*final(a), pre.push(*entry), default_name, old(a).takes_value),
            Err(e) => e.at() == path@ && arg_entry_error(entry.0@, e),
        },
{
    let ghost post = pre.push(*entry);
    assert(post.drop_last() =~= pre);
    let k = match arg_key(entry.0.as_str()) {
        Some(k) => k,
        None => {
            return Err(SchemaError::UnrecognizedKey { key: entry.0.clone(), path: path.clone() });
        },
    };
    let v = &entry.1;
    match k {
        ArgKey::Name | ArgKey::Long | ArgKey::Help | ArgKey::DefaultValue | ArgKey::Env => {
            let t = text_of(v, path)?;
            match k {
                ArgKey::Name => a.name = t,
                ArgKey::Long => a.long = Some(t),
                ArgKey::Help => a.help = Some(t),
                ArgKey::DefaultValue => a.default_value = Some(t),
                _ => a.env = Some(t),
            }
        },
        ArgKey::Required | ArgKey::Multiple => {
            let b = bool_of(v, path)?;
            match k {
                ArgKey::Required => a.required = b,
                _ => a.multiple = b,
            }
        },
        ArgKey::Short | ArgKey::ValueDelimiter => {
            let c = char_of(v, path)?;
            match k {
                ArgKey::Short => a.short = Some(c),
                _ => a.value_delimiter = Some(c),
            }
        },
        ArgKey::Aliases | ArgKey::PossibleValues | ArgKey::Requires => {
            let s = text_set_of(v, path)?;
            match k {
                ArgKey::Aliases => a.aliases = s,
                ArgKey::PossibleValues => a.possible_values = s,
                _ => a.requires = s,
            }
        },
        ArgKey::Index => {
            let p = position_of(v, path)?;
            a.index = Some(p);
        },
    }
    Ok(())
}

/// Compiles the description of one argument.
pub fn compile_arg(n: &Node, default_name: &String, takes_value: bool, path: &String) -> (r: Result<
    ArgSpec,
    SchemaError,
>)
    ensures
        r is Ok <==> arg_node_ok(*n),
        match r {
            Ok(a) => arg_built(a, n->Dict_0@, default_name@, takes_value),
            Err(e) => e.at() == path@ && arg_error(*n, e),
        },
{
    let entries = match n {
        Node::Dict(e) => e,
        _ => {
            return Err(SchemaError::Expected { what: Expectation::Mapping, path: path.clone() });
        },
    };
    let mut a = ArgSpec {
        name: default_name.clone(),
        takes_value,
        required: false,
        multiple: false,
        short: None,
        long: None,
        aliases: Vec::new(),
        help: None,
        default_value: None,
        possible_values: Vec::new(),
        value_delimiter: None,
        requires: Vec::new(),
        env: None,
        index: None,
    };
    let ghost e = entries@;
    proof {
        assert(e.subrange(0, 0) =~= Seq::<(String, Node)>::empty());
        assert(views(Seq::<String>::empty()).to_set() =~= Set::<Seq<char>>::empty());
        assert(views(Seq::<String>::empty()) =~= Seq::<Seq<char>>::empty());
    }
    let mut i: usize = 0;
    while i < entries.len()
        invariant
            *n == Node::Dict(*entries),
            e == entries@,
            i <= e.len(),
            arg_built(a, e.subrange(0, i as int), default_name@, takes_value),
            forall|k: int| 0 <= k < i ==> arg_entry_ok((#[trigger] e[k]).0@, e[k].1),
        decreases e.len() - i,
    {
        let ghost pre = e.subrange(0, i as int);
        proof {
            assert(e.subrange(0, i + 1) =~= pre.push(e[i as int]));
        }
        match apply_arg_entry(&mut a, &entries[i], path, Ghost(pre), Ghost(default_name@)) {
            Ok(()) => {},
            Err(err) => {
                assert(n->Dict_0@[i as int] == e[i as int]);
                assert(!arg_entry_ok(e[i as int].0@, e[i as int].1));
                assert(arg_error(*n, err));
                return Err(err);
            },
        }
        i = i + 1;
    }
    assert(e.subrange(0, i as int) =~= e);
    Ok(a)
}

} // verus!
