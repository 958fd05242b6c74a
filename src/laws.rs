//! Properties of compilation and resolution taken together: the output
//! depends on nothing but the declared names, and every declared name is
//! printed once.
use vstd::prelude::*;
use crate::compile::{
    Command, CommandKey, arg_name_of, command_ok, compiled_from,
    entry_names, entry_ok, key_of, lemma_level_names_prefix, lemma_named_args_origin,
    level_names, named_args_of, positional_ok, positionals_of,
};
use crate::names::{sorted, views};
use crate::resolve::{CommandShape, Resolution, child_in, level_lines, resolution_lines};
use crate::schema::{ArgSpec, Node, arg_built, arg_node_ok};
use crate::shape::{flag_names, kinds_disjoint, shape_of, value_names};

verus! {

pub open spec fn same_names(a: Command, b: Command) -> bool
    decreases a,
{
    &&& flag_names(a).to_set() == flag_names(b).to_set()
    &&& value_names(a).to_set() == value_names(b).to_set()
    &&& a.subcommands@.len() == b.subcommands@.len()
    &&& forall|j: int|
        0 <= j < a.subcommands@.len() ==> (#[trigger] a.subcommands@[j]).name@
            == b.subcommands@[j].name@ && same_names(a.subcommands@[j], b.subcommands@[j])
}

proof fn lemma_sorted_drop_first(a: Seq<Seq<char>>)
    requires
        sorted(a),
        a.len() > 0,
    ensures
        sorted(a.drop_first()),
        a.drop_first().to_set() == a.to_set().remove(a[0]),
{
    crate::names::lemma_sorted_distinct(a);
    let t = a.drop_first();
    assert(t.to_set() =~= a.to_set().remove(a[0])) by {
        assert forall|x| t.to_set().contains(x) implies a.to_set().remove(a[0]).contains(x) by {
            let k = choose|k: int| 0 <= k < t.len() && t[k] == x;
            assert(a[k + 1] == x);
        }
        assert forall|x| a.to_set().remove(a[0]).contains(x) implies t.to_set().contains(x) by {
            let k = choose|k: int| 0 <= k < a.len() && a[k] == x;
            assert(k != 0);
            assert(t[k - 1] == x);
        }
    }
}

/// Sorted sequences with the same elements are equal.
proof fn lemma_sorted_unique(a: Seq<Seq<char>>, b: Seq<Seq<char>>)
    requires
        sorted(a),
        sorted(b),
        a.to_set() == b.to_set(),
    ensures
        a == b,
    decreases a.len(),
{
    if a.len() == 0 {
        if b.len() > 0 {
            assert(b.to_set().contains(b[0]));
        }
        assert(a =~= b);
    } else {
        if b.len() == 0 {
            assert(a.to_set().contains(a[0]));
        }
        assert(a.to_set().contains(a[0]));
        assert(b.to_set().contains(b[0]));
        if a[0] != b[0] {
            let k = choose|k: int| 0 <= k < a.len() && a[k] == b[0];
            let m = choose|m: int| 0 <= m < b.len() && b[m] == a[0];
            crate::names::lemma_lt_total(a[0], b[0]);
        }
        lemma_sorted_drop_first(a);
        lemma_sorted_drop_first(b);
        lemma_sorted_unique(a.drop_first(), b.drop_first());
        assert(a =~= seq![a[0]] + a.drop_first());
        assert(b =~= seq![b[0]] + b.drop_first());
    }
}

proof fn lemma_child_in_corresponds(
    a: Seq<(String, CommandShape)>,
    b: Seq<(String, CommandShape)>,
    name: Seq<char>,
)
    requires
        a.len() == b.len(),
        forall|j: int| 0 <= j < a.len() ==> (#[trigger] a[j]).0@ == b[j].0@,
    ensures
        child_in(a, name) is None <==> child_in(b, name) is None,
        child_in(a, name) is Some ==> exists|j: int|
            0 <= j < a.len() && child_in(a, name) == Some(a[j].1) && child_in(b, name) == Some(
                b[j].1,
            ) && a[j].0@ == name,
    decreases a.len(),
{
    if a.len() > 0 {
        let n = a.len() - 1;
        assert(a[n].0@ == b[n].0@);
        if a.last().0@ != name {
            lemma_child_in_corresponds(a.drop_last(), b.drop_last(), name);
            if child_in(a, name) is Some {
                let j = choose|j: int|
                    0 <= j < a.drop_last().len() && child_in(a.drop_last(), name) == Some(
                        a.drop_last()[j].1,
                    ) && child_in(b.drop_last(), name) == Some(b.drop_last()[j].1)
                        && a.drop_last()[j].0@ == name;
                assert(a[j] == a.drop_last()[j]);
                assert(b[j] == b.drop_last()[j]);
            }
        }
    }
}

/// The output depends only on the declared names: shapes of two commands
/// that declare the same names give the same lines for every resolution.
/// In particular, compiling one document twice gives the same output.
pub proof fn lemma_same_names_same_output(
    c1: Command,
    c2: Command,
    s1: CommandShape,
    s2: CommandShape,
    res: Resolution,
    parents: Seq<Seq<char>>,
)
    requires
        shape_of(c1, s1),
        shape_of(c2, s2),
        same_names(c1, c2),
    ensures
        resolution_lines(s1, res, parents) == resolution_lines(s2, res, parents),
    decreases res,
{
    lemma_sorted_unique(views(s1.flags@), views(s2.flags@));
    lemma_sorted_unique(views(s1.values@), views(s2.values@));
    assert(level_lines(s1, res) == level_lines(s2, res));
    match res.subcommand {
        None => {},
        Some((name, child)) => {
            assert forall|j: int| 0 <= j < s1.subcommands@.len() implies (#[trigger] s1.subcommands@[j]).0@
                == s2.subcommands@[j].0@ by {
                assert(s1.subcommands@[j].0@ == c1.subcommands@[j].name@);
                assert(s2.subcommands@[j].0@ == c2.subcommands@[j].name@);
            }
            lemma_child_in_corresponds(s1.subcommands@, s2.subcommands@, name@);
            if child_in(s1.subcommands@, name@) is Some {
                let j = choose|j: int|
                    0 <= j < s1.subcommands@.len() && child_in(s1.subcommands@, name@) == Some(
                        s1.subcommands@[j].1,
                    ) && child_in(s2.subcommands@, name@) == Some(s2.subcommands@[j].1)
                        && s1.subcommands@[j].0@ == name@;
                assert(shape_of(c1.subcommands@[j], s1.subcommands@[j].1));
                assert(shape_of(c2.subcommands@[j], s2.subcommands@[j].1));
                assert(same_names(c1.subcommands@[j], c2.subcommands@[j]));
                lemma_same_names_same_output(
                    c1.subcommands@[j],
                    c2.subcommands@[j],
                    s1.subcommands@[j].1,
                    s2.subcommands@[j].1,
                    *child,
                    parents.push(name@),
                );
            }
        },
    }
}


proof fn lemma_subcommand_decreases(n: Node, x: int)
    requires
        n is Dict,
        0 <= x < named_args_of(n->Dict_0@, CommandKey::Subcommands).len(),
    ensures
        decreases_to!(n => named_args_of(n->Dict_0@, CommandKey::Subcommands)[x].1),
{
    let e = n->Dict_0;
    lemma_named_args_origin(e@, CommandKey::Subcommands, x);
    let (i, j) = choose|i: int, j: int|
        0 <= i < e@.len() && e@[i].1 is Dict && 0 <= j < e@[i].1->Dict_0@.len() && named_args_of(
            e@,
            CommandKey::Subcommands,
        )[x] == ((#[trigger] e@[i].1->Dict_0@[j]).0@, e@[i].1->Dict_0@[j].1);
    assert(decreases_to!(n => n->Dict_0));
    assert(decreases_to!(n->Dict_0 => n->Dict_0@));
    assert(decreases_to!(n->Dict_0@ => e@[i]));
    assert(decreases_to!(e@[i] => e@[i].1));
    assert(decreases_to!(e@[i].1 => e@[i].1->Dict_0));
    let ss = e@[i].1->Dict_0;
    assert(decreases_to!(ss => ss@));
    assert(decreases_to!(ss@ => ss@[j]));
    assert(decreases_to!(ss@[j] => ss@[j].1));
}

/// Two commands compiled from one description declare the same names.
pub proof fn lemma_compiled_same_names(c1: Command, c2: Command, n: Node, default_name: Seq<char>)
    requires
        compiled_from(c1, n, default_name),
        compiled_from(c2, n, default_name),
    ensures
        same_names(c1, c2),
    decreases n,
{
    let e = n->Dict_0@;
    let fsrc = named_args_of(e, CommandKey::Flags);
    let osrc = named_args_of(e, CommandKey::Opts);
    let psrc = positionals_of(e);
    let ssrc = named_args_of(e, CommandKey::Subcommands);
    assert(flag_names(c1) =~= flag_names(c2)) by {
        assert forall|j: int| 0 <= j < c1.flags@.len() implies c1.flags@[j].name@
            == c2.flags@[j].name@ by {
            assert(arg_built(c1.flags@[j], fsrc[j].1->Dict_0@, fsrc[j].0, false));
            assert(arg_built(c2.flags@[j], fsrc[j].1->Dict_0@, fsrc[j].0, false));
        }
    }
    assert(value_names(c1) =~= value_names(c2)) by {
        assert(c1.opts@.map_values(|a: ArgSpec| a.name@) =~= c2.opts@.map_values(
            |a: ArgSpec| a.name@,
        )) by {
            assert forall|j: int| 0 <= j < c1.opts@.len() implies c1.opts@[j].name@
                == c2.opts@[j].name@ by {
                assert(arg_built(c1.opts@[j], osrc[j].1->Dict_0@, osrc[j].0, true));
                assert(arg_built(c2.opts@[j], osrc[j].1->Dict_0@, osrc[j].0, true));
            }
        }
        assert(c1.args@.map_values(|a: ArgSpec| a.name@) =~= c2.args@.map_values(
            |a: ArgSpec| a.name@,
        )) by {
            assert forall|j: int| 0 <= j < c1.args@.len() implies c1.args@[j].name@
                == c2.args@[j].name@ by {
                assert(arg_built(c1.args@[j], psrc[j]->Dict_0@, Seq::empty(), true));
                assert(arg_built(c2.args@[j], psrc[j]->Dict_0@, Seq::empty(), true));
            }
        }
    }
    assert forall|j: int| 0 <= j < c1.subcommands@.len() implies (#[trigger] c1.subcommands@[
        j
    ]).name@ == c2.subcommands@[j].name@ && same_names(c1.subcommands@[j], c2.subcommands@[j]) by {
        assert(compiled_from(c1.subcommands@[j], ssrc[j].1, ssrc[j].0));
        assert(compiled_from(c2.subcommands@[j], ssrc[j].1, ssrc[j].0));
        lemma_subcommand_decreases(n, j);
        lemma_compiled_same_names(c1.subcommands@[j], c2.subcommands@[j], ssrc[j].1, ssrc[j].0);
    }
}

/// Compiling one description twice gives shapes that print the same lines
/// for every resolution.
pub proof fn lemma_compile_deterministic(
    n: Node,
    default_name: Seq<char>,
    c1: Command,
    c2: Command,
    s1: CommandShape,
    s2: CommandShape,
    res: Resolution,
)
    requires
        compiled_from(c1, n, default_name),
        compiled_from(c2, n, default_name),
        shape_of(c1, s1),
        shape_of(c2, s2),
    ensures
        resolution_lines(s1, res, Seq::empty()) == resolution_lines(s2, res, Seq::empty()),
{
    lemma_compiled_same_names(c1, c2, n, default_name);
    lemma_same_names_same_output(c1, c2, s1, s2, res, Seq::empty());
}


proof fn lemma_positionals_origin(e: Seq<(String, Node)>, x: int)
    requires
        0 <= x < positionals_of(e).len(),
    ensures
        exists|i: int, j: int|
            0 <= i < e.len() && key_of(e[i]) == Some(CommandKey::Args) && e[i].1 is List && 0 <= j
                < e[i].1->List_0@.len() && positionals_of(e)[x] == #[trigger] e[i].1->List_0@[j],
    decreases e.len(),
{
    let d = e.drop_last();
    let pre = positionals_of(d);
    if x < pre.len() {
        lemma_positionals_origin(d, x);
        let (i, j) = choose|i: int, j: int|
            0 <= i < d.len() && key_of(d[i]) == Some(CommandKey::Args) && d[i].1 is List && 0 <= j
                < d[i].1->List_0@.len() && positionals_of(d)[x] == #[trigger] d[i].1->List_0@[j];
        assert(e[i] == d[i]);
    } else {
        let i = e.len() - 1;
        let j = x - pre.len();
        assert(e[i] == e.last());
        assert(positionals_of(e)[x] == e[i].1->List_0@[j]);
    }
}

/// Where the names of entry `i` stand among the names of its level.
proof fn lemma_level_index(e: Seq<(String, Node)>, i: int, j: int)
    requires
        0 <= i < e.len(),
        0 <= j < entry_names(e[i]).len(),
    ensures
        level_names(e.subrange(0, i)).len() + j < level_names(e.subrange(0, i + 1)).len(),
        level_names(e.subrange(0, i + 1)).len() <= level_names(e).len(),
        level_names(e)[level_names(e.subrange(0, i)).len() + j] == entry_names(e[i])[j],
{
    lemma_level_names_prefix(e, i + 1);
    assert(e.subrange(0, i + 1).drop_last() =~= e.subrange(0, i));
    assert(e.subrange(0, i + 1).last() == e[i]);
    let p = level_names(e.subrange(0, i + 1));
    assert(level_names(e)[level_names(e.subrange(0, i)).len() + j] == p[level_names(
        e.subrange(0, i),
    ).len() + j]);
}

proof fn lemma_level_offsets_grow(e: Seq<(String, Node)>, a: int, b: int)
    requires
        0 <= a <= b <= e.len(),
    ensures
        level_names(e.subrange(0, a)).len() <= level_names(e.subrange(0, b)).len(),
{
    lemma_level_names_prefix(e.subrange(0, b), a);
    assert(e.subrange(0, b).subrange(0, a) =~= e.subrange(0, a));
}

/// The position among the level's names of the `x`-th flag (`Flags`) or
/// option (`Opts`), and of the `x`-th positional argument.
proof fn lemma_named_arg_position(c: Command, e: Seq<(String, Node)>, k: CommandKey, x: int) -> (r: (int, int))
    requires
        k == CommandKey::Flags || k == CommandKey::Opts,
        forall|i: int| 0 <= i < e.len() ==> entry_ok(#[trigger] e[i]),
        0 <= x < named_args_of(e, k).len(),
    ensures
        0 <= r.0 < e.len(),
        key_of(e[r.0]) == Some(k),
        level_names(e.subrange(0, r.0)).len() <= r.1 < level_names(e.subrange(0, r.0 + 1)).len(),
        r.1 < level_names(e).len(),
        level_names(e)[r.1] == arg_name_of(named_args_of(e, k)[x].1, named_args_of(e, k)[x].0),
        named_args_of(e, k)[x].1 is Dict,
{
    lemma_named_args_origin(e, k, x);
    let (i, j) = choose|i: int, j: int|
        0 <= i < e.len() && key_of(e[i]) == Some(k) && e[i].1 is Dict && 0 <= j < e[i].1->Dict_0@.len()
            && named_args_of(e, k)[x] == ((#[trigger] e[i].1->Dict_0@[j]).0@, e[i].1->Dict_0@[j].1);
    assert(entry_ok(e[i]));
    assert(arg_node_ok(e[i].1->Dict_0@[j].1));
    lemma_level_index(e, i, j);
    (i, level_names(e.subrange(0, i)).len() + j)
}

proof fn lemma_positional_position(c: Command, e: Seq<(String, Node)>, x: int) -> (r: (int, int))
    requires
        forall|i: int| 0 <= i < e.len() ==> entry_ok(#[trigger] e[i]),
        0 <= x < positionals_of(e).len(),
    ensures
        0 <= r.0 < e.len(),
        key_of(e[r.0]) == Some(CommandKey::Args),
        level_names(e.subrange(0, r.0)).len() <= r.1 < level_names(e.subrange(0, r.0 + 1)).len(),
        r.1 < level_names(e).len(),
        level_names(e)[r.1] == arg_name_of(positionals_of(e)[x], Seq::empty()),
        positionals_of(e)[x] is Dict,
{
    lemma_positionals_origin(e, x);
    let (i, j) = choose|i: int, j: int|
        0 <= i < e.len() && key_of(e[i]) == Some(CommandKey::Args) && e[i].1 is List && 0 <= j
            < e[i].1->List_0@.len() && positionals_of(e)[x] == #[trigger] e[i].1->List_0@[j];
    assert(entry_ok(e[i]));
    assert(positional_ok(e[i].1->List_0@[j]));
    lemma_level_index(e, i, j);
    (i, level_names(e.subrange(0, i)).len() + j)
}

/// A command compiled from a description that compiles never declares a
/// name both as a flag and as a value, so it always has a shape.
pub proof fn lemma_compiled_kinds_disjoint(c: Command, n: Node, default_name: Seq<char>)
    requires
        command_ok(n),
        compiled_from(c, n, default_name),
    ensures
        kinds_disjoint(c),
    decreases n,
{
    let e = n->Dict_0@;
    assert forall|i: int| 0 <= i < e.len() implies entry_ok(#[trigger] e[i]) by {
        assert(entry_ok(n->Dict_0@[i]));
    }
    let fsrc = named_args_of(e, CommandKey::Flags);
    let osrc = named_args_of(e, CommandKey::Opts);
    let psrc = positionals_of(e);
    let fnames = flag_names(c);
    let vnames = value_names(c);
    assert forall|a: int, b: int| 0 <= a < fnames.len() && 0 <= b < vnames.len() implies #[trigger] fnames[a]
        != #[trigger] vnames[b] by {
        let (i, p) = lemma_named_arg_position(c, e, CommandKey::Flags, a);
        assert(arg_built(c.flags@[a], fsrc[a].1->Dict_0@, fsrc[a].0, false));
        assert(fnames[a] == level_names(e)[p]);
        let (i2, q) = if b < c.opts@.len() {
            let r = lemma_named_arg_position(c, e, CommandKey::Opts, b);
            assert(arg_built(c.opts@[b], osrc[b].1->Dict_0@, osrc[b].0, true));
            assert(vnames[b] == c.opts@[b].name@);
            r
        } else {
            let y = b - c.opts@.len();
            let r = lemma_positional_position(c, e, y);
            assert(arg_built(c.args@[y], psrc[y]->Dict_0@, Seq::empty(), true));
            assert(vnames[b] == c.args@[y].name@);
            r
        };
        assert(vnames[b] == level_names(e)[q]);
        assert(i != i2);
        if i < i2 {
            lemma_level_offsets_grow(e, i + 1, i2);
        } else {
            lemma_level_offsets_grow(e, i2 + 1, i);
        }
        assert(p != q);
    }
    assert forall|x: int| 0 <= x < c.subcommands@.len() implies kinds_disjoint(
        #[trigger] c.subcommands@[x],
    ) by {
        let ssrc = named_args_of(e, CommandKey::Subcommands);
        assert(compiled_from(c.subcommands@[x], ssrc[x].1, ssrc[x].0));
        lemma_named_args_origin(e, CommandKey::Subcommands, x);
        let (i, j) = choose|i: int, j: int|
            0 <= i < e.len() && key_of(e[i]) == Some(CommandKey::Subcommands) && e[i].1 is Dict && 0
                <= j < e[i].1->Dict_0@.len() && ssrc[x] == (
                (#[trigger] e[i].1->Dict_0@[j]).0@,
                e[i].1->Dict_0@[j].1,
            );
        assert(n->Dict_0@[i] == e[i]);
        assert(command_ok(e[i].1->Dict_0@[j].1));
        lemma_subcommand_decreases(n, x);
        lemma_compiled_kinds_disjoint(c.subcommands@[x], ssrc[x].1, ssrc[x].0);
    }
}


/// Every flag, option and positional name that a command declares is
/// assigned by exactly one line of its level's block, whatever was matched.
pub proof fn lemma_declared_names_printed_once(
    c: Command,
    s: CommandShape,
    res: Resolution,
    parents: Seq<Seq<char>>,
)
    requires
        shape_of(c, s),
        resolution_lines(s, res, parents) is Some,
    ensures
        ({
            let lines = resolution_lines(s, res, parents).unwrap();
            let d = s.declared();
            &&& d.len() <= lines.len()
            &&& forall|i: int|
                0 <= i < d.len() ==> (#[trigger] lines[i]).len() > d[i].len() && lines[i].subrange(
                    0,
                    d[i].len() as int + 1,
                ) == d[i] + seq!['=']
            &&& forall|n: Seq<char>|
                flag_names(c).contains(n) || value_names(c).contains(n) ==> exists|i: int|
                    0 <= i < d.len() && d[i] == n && forall|j: int|
                        0 <= j < d.len() && #[trigger] d[j] == n ==> j == i
        }),
{
    crate::resolve::lemma_each_declared_name_once(s, res, parents);
    assert forall|n: Seq<char>| flag_names(c).contains(n) || value_names(c).contains(n) implies views(
        s.flags@,
    ).contains(n) || views(s.values@).contains(n) by {
        if flag_names(c).contains(n) {
            assert(flag_names(c).to_set().contains(n));
            assert(views(s.flags@).to_set().contains(n));
        } else {
            assert(value_names(c).to_set().contains(n));
            assert(views(s.values@).to_set().contains(n));
        }
    }
}


} // verus!
