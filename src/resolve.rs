//! The invocation resolver: walks a command shape together with what the
//! matching engine resolved and produces the assignment lines.
use vstd::prelude::*;
use vstd::string::*;
use crate::names::{sorted, views, lemma_sorted_distinct};
use crate::text::{decimal, escaped, joined, push_decimal, push_joined_escaped};

verus! {

/// The names one command level declares: flags, options and positional
/// arguments taken together as value names, and the nested subcommands.
pub struct CommandShape {
    pub flags: Vec<String>,
    pub values: Vec<String>,
    pub subcommands: Vec<(String, CommandShape)>,
}

/// What the matching engine decided for one command level.
pub struct Resolution {
    /// Occurrence counts of flags; a later entry for a name wins.
    pub counts: Vec<(String, u64)>,
    /// Values of options and positional arguments that were supplied.
    pub values: Vec<(String, Vec<String>)>,
    /// The selected subcommand, if any, with its own resolution.
    pub subcommand: Option<(String, Box<Resolution>)>,
}

pub enum ResolveError {
    /// The resolution selected a subcommand that the shape does not declare.
    UnknownSubcommand { name: String },
}

impl CommandShape {
    /// Flags and values each sorted, and no name both a flag and a value.
    pub open spec fn wf(&self) -> bool {
        &&& sorted(views(self.flags@))
        &&& sorted(views(self.values@))
        &&& forall|i: int, j: int|
            0 <= i < self.flags@.len() && 0 <= j < self.values@.len() ==> (#[trigger] self.flags@[i])@
                != (#[trigger] self.values@[j])@
    }

    /// The flag names followed by the value names: one output line each.
    pub open spec fn declared(&self) -> Seq<Seq<char>> {
        views(self.flags@) + views(self.values@)
    }
}

pub open spec fn count_in(s: Seq<(String, u64)>, name: Seq<char>) -> nat
    decreases s.len(),
{
    if s.len() == 0 {
        0
    } else if s.last().0@ == name {
        s.last().1 as nat
    } else {
        count_in(s.drop_last(), name)
    }
}

pub open spec fn values_in(s: Seq<(String, Vec<String>)>, name: Seq<char>) -> Option<
    Seq<Seq<char>>,
>
    decreases s.len(),
{
    if s.len() == 0 {
        None
    } else if s.last().0@ == name {
        Some(views(s.last().1@))
    } else {
        values_in(s.drop_last(), name)
    }
}

pub open spec fn child_in(s: Seq<(String, CommandShape)>, name: Seq<char>) -> Option<CommandShape>
    decreases s.len(),
{
    if s.len() == 0 {
        None
    } else if s.last().0@ == name {
        Some(s.last().1)
    } else {
        child_in(s.drop_last(), name)
    }
}

/// `name=<count>`.
pub open spec fn flag_line(name: Seq<char>, count: nat) -> Seq<char> {
    name + seq!['='] + decimal(count)
}

/// `name='<escaped values joined by newlines>'`, or `name=` where no value
/// was resolved.
pub open spec fn value_line(name: Seq<char>, vals: Option<Seq<Seq<char>>>) -> Seq<char> {
    match vals {
        Some(v) => if v.len() > 0 {
            name + seq!['=', '\''] + escaped(joined(v)) + seq!['\'']
        } else {
            name + seq!['=']
        },
        None => name + seq!['='],
    }
}

/// `subcommand`, followed by `_<name>` for each ancestor subcommand.
pub open spec fn subcommand_key(parents: Seq<Seq<char>>) -> Seq<char>
    decreases parents.len(),
{
    if parents.len() == 0 {
        seq!['s', 'u', 'b', 'c', 'o', 'm', 'm', 'a', 'n', 'd']
    } else {
        subcommand_key(parents.drop_last()) + seq!['_'] + parents.last()
    }
}

pub open spec fn subcommand_line(parents: Seq<Seq<char>>, name: Seq<char>) -> Seq<char> {
    subcommand_key(parents) + seq!['='] + name
}

/// The lines of one level: a line per flag, then a line per value name.
pub open spec fn level_lines(shape: CommandShape, res: Resolution) -> Seq<Seq<char>> {
    views(shape.flags@).map_values(|f: Seq<char>| flag_line(f, count_in(res.counts@, f)))
        + views(shape.values@).map_values(
        |v: Seq<char>| value_line(v, values_in(res.values@, v)),
    )
}

/// All lines of a resolution, level after level down the selected
/// subcommands; `None` where a selected subcommand is not declared.
pub open spec fn resolution_lines(
    shape: CommandShape,
    res: Resolution,
    parents: Seq<Seq<char>>,
) -> Option<Seq<Seq<char>>>
    decreases res,
{
    let base = level_lines(shape, res);
    match res.subcommand {
        None => Some(base),
        Some((name, child)) => match child_in(shape.subcommands@, name@) {
            None => None,
            Some(cs) => match resolution_lines(cs, *child, parents.push(name@)) {
                None => None,
                Some(rest) => Some(base + seq![subcommand_line(parents, name@)] + rest),
            },
        },
    }
}

/// Every flag, option and positional name of a level is assigned in the
/// output, by exactly one line of that level's block, whatever was matched.
pub proof fn lemma_each_declared_name_once(
    shape: CommandShape,
    res: Resolution,
    parents: Seq<Seq<char>>,
)
    requires
        shape.wf(),
        resolution_lines(shape, res, parents) is Some,
    ensures
        ({
            let lines = resolution_lines(shape, res, parents).unwrap();
            let d = shape.declared();
            &&& d.len() <= lines.len()
            &&& forall|i: int|
                0 <= i < d.len() ==> (#[trigger] lines[i]).len() > d[i].len() && lines[i].subrange(
                    0,
                    d[i].len() as int + 1,
                ) == d[i] + seq!['=']
            &&& forall|n: Seq<char>|
                views(shape.flags@).contains(n) || views(shape.values@).contains(n) ==> exists|
                    i: int,
                |
                    0 <= i < d.len() && d[i] == n && forall|j: int|
                        0 <= j < d.len() && #[trigger] d[j] == n ==> j == i
        }),
{
    let lines = resolution_lines(shape, res, parents).unwrap();
    let d = shape.declared();
    let fv = views(shape.flags@);
    let vv = views(shape.values@);
    let base = level_lines(shape, res);
    assert(lines.subrange(0, base.len() as int) =~= base);
    lemma_sorted_distinct(fv);
    lemma_sorted_distinct(vv);
    assert forall|i: int| 0 <= i < d.len() implies (#[trigger] lines[i]).len() > d[i].len()
        && lines[i].subrange(0, d[i].len() as int + 1) == d[i] + seq!['='] by {
        assert(lines[i] == base[i]);
        if i < fv.len() {
            assert(lines[i] == flag_line(fv[i], count_in(res.counts@, fv[i])));
            assert(lines[i].subrange(0, d[i].len() as int + 1) =~= d[i] + seq!['=']);
        } else {
            let k = i - fv.len();
            let vals = values_in(res.values@, vv[k]);
            assert(lines[i] == value_line(vv[k], vals));
            assert(lines[i].subrange(0, d[i].len() as int + 1) =~= d[i] + seq!['=']);
        }
    }
    assert forall|n: Seq<char>| fv.contains(n) || vv.contains(n) implies exists|i: int|
        0 <= i < d.len() && d[i] == n && forall|j: int|
            0 <= j < d.len() && #[trigger] d[j] == n ==> j == i by {
        if fv.contains(n) {
            let i = choose|i: int| 0 <= i < fv.len() && fv[i] == n;
            assert(d[i] == n);
            assert forall|j: int| 0 <= j < d.len() && #[trigger] d[j] == n implies j == i by {
                if j >= fv.len() {
                    assert(shape.flags@[i]@ == n);
                    assert(shape.values@[j - fv.len()]@ == n);
                }
            }
        } else {
            let k = choose|k: int| 0 <= k < vv.len() && vv[k] == n;
            let i = k + fv.len();
            assert(d[i] == n);
            assert forall|j: int| 0 <= j < d.len() && #[trigger] d[j] == n implies j == i by {
                if j < fv.len() {
                    assert(shape.flags@[j]@ == n);
                    assert(shape.values@[k]@ == n);
                }
            }
        }
    }
}

/// A level reports at most one active subcommand: with none selected its
/// output is its own block alone; with one selected, exactly one line after
/// the block names it, and the rest is the selected subcommand's output.
pub proof fn lemma_one_subcommand_per_level(
    shape: CommandShape,
    res: Resolution,
    parents: Seq<Seq<char>>,
)
    requires
        resolution_lines(shape, res, parents) is Some,
    ensures
        ({
            let lines = resolution_lines(shape, res, parents).unwrap();
            let base = level_lines(shape, res);
            match res.subcommand {
                None => lines == base,
                Some((name, child)) => {
                    &&& child_in(shape.subcommands@, name@) is Some
                    &&& lines.len() > base.len()
                    &&& lines.subrange(0, base.len() as int) == base
                    &&& lines[base.len() as int] == subcommand_line(parents, name@)
                    &&& lines.subrange(base.len() as int + 1, lines.len() as int) == resolution_lines(
                        child_in(shape.subcommands@, name@).unwrap(),
                        *child,
                        parents.push(name@),
                    ).unwrap()
                },
            }
        }),
{
    let lines = resolution_lines(shape, res, parents).unwrap();
    let base = level_lines(shape, res);
    match res.subcommand {
        None => {},
        Some((name, child)) => {
            assert(lines.subrange(0, base.len() as int) =~= base);
            let rest = resolution_lines(
                child_in(shape.subcommands@, name@).unwrap(),
                *child,
                parents.push(name@),
            ).unwrap();
            assert(lines.subrange(base.len() as int + 1, lines.len() as int) =~= rest);
        },
    }
}

fn count_of(counts: &Vec<(String, u64)>, name: &String) -> (r: u64)
    ensures
        r as nat == count_in(counts@, name@),
{
    let mut r: u64 = 0;
    let mut i: usize = 0;
    while i < counts.len()
        invariant
            i <= counts.len(),
            r as nat == count_in(counts@.subrange(0, i as int), name@),
        decreases counts.len() - i,
    {
        assert(counts@.subrange(0, i + 1).drop_last() =~= counts@.subrange(0, i as int));
        if counts[i].0 == *name {
            r = counts[i].1;
        }
        i = i + 1;
    }
    assert(counts@.subrange(0, i as int) =~= counts@);
    r
}

fn values_of<'a>(values: &'a Vec<(String, Vec<String>)>, name: &String) -> (r: Option<
    &'a Vec<String>,
>)
    ensures
        match r {
            Some(v) => values_in(values@, name@) == Some(views(v@)),
            None => values_in(values@, name@) is None,
        },
{
    let mut r: Option<&'a Vec<String>> = None;
    let mut i: usize = 0;
    while i < values.len()
        invariant
            i <= values.len(),
            match r {
                Some(v) => values_in(values@.subrange(0, i as int), name@) == Some(views(v@)),
                None => values_in(values@.subrange(0, i as int), name@) is None,
            },
        decreases values.len() - i,
    {
        assert(values@.subrange(0, i + 1).drop_last() =~= values@.subrange(0, i as int));
        if values[i].0 == *name {
            r = Some(&values[i].1);
        }
        i = i + 1;
    }
    assert(values@.subrange(0, i as int) =~= values@);
    r
}

fn child_of<'a>(subs: &'a Vec<(String, CommandShape)>, name: &String) -> (r: Option<
    &'a CommandShape,
>)
    ensures
        match r {
            Some(c) => child_in(subs@, name@) == Some(*c),
            None => child_in(subs@, name@) is None,
        },
{
    let mut r: Option<&'a CommandShape> = None;
    let mut i: usize = 0;
    while i < subs.len()
        invariant
            i <= subs.len(),
            match r {
                Some(c) => child_in(subs@.subrange(0, i as int), name@) == Some(*c),
                None => child_in(subs@.subrange(0, i as int), name@) is None,
            },
        decreases subs.len() - i,
    {
        assert(subs@.subrange(0, i + 1).drop_last() =~= subs@.subrange(0, i as int));
        if subs[i].0 == *name {
            r = Some(&subs[i].1);
        }
        i = i + 1;
    }
    assert(subs@.subrange(0, i as int) =~= subs@);
    r
}

fn push_level(shape: &CommandShape, res: &Resolution, out: &mut Vec<String>)
    ensures
        views(final(out)@) == views(old(out)@) + level_lines(*shape, *res),
{
    let ghost start = views(out@);
    let ghost fl = views(shape.flags@).map_values(
        |f: Seq<char>| flag_line(f, count_in(res.counts@, f)),
    );
    let ghost vl = views(shape.values@).map_values(
        |v: Seq<char>| value_line(v, values_in(res.values@, v)),
    );
    let mut i: usize = 0;
    while i < shape.flags.len()
        invariant
            i <= shape.flags.len(),
            fl == views(shape.flags@).map_values(
                |f: Seq<char>| flag_line(f, count_in(res.counts@, f)),
            ),
            views(out@) == start + fl.subrange(0, i as int),
        decreases shape.flags.len() - i,
    {
        proof {
            reveal_strlit("=");
            reveal_strlit("='");
            reveal_strlit("'");
            assert("="@ =~= seq!['=']);
            assert("='"@ =~= seq!['=', '\'']);
            assert("'"@ =~= seq!['\'']);
        }
        let name = &shape.flags[i];
        let mut line = name.clone();
        line.append("=");
        let n = count_of(&res.counts, name);
        push_decimal(&mut line, n);
        let ghost lv = line@;
        let ghost ov = out@;
        out.push(line);
        proof {
            assert(views(out@) =~= views(ov).push(lv));
            assert(lv =~= fl[i as int]);
            assert(views(out@) =~= start + fl.subrange(0, i + 1));
        }
        i = i + 1;
    }
    let ghost mid = views(out@);
    assert(fl.subrange(0, i as int) =~= fl);
    let mut i: usize = 0;
    while i < shape.values.len()
        invariant
            i <= shape.values.len(),
            vl == views(shape.values@).map_values(
                |v: Seq<char>| value_line(v, values_in(res.values@, v)),
            ),
            mid == start + fl,
            views(out@) == mid + vl.subrange(0, i as int),
        decreases shape.values.len() - i,
    {
        proof {
            reveal_strlit("=");
            reveal_strlit("='");
            reveal_strlit("'");
            assert("="@ =~= seq!['=']);
            assert("='"@ =~= seq!['=', '\'']);
            assert("'"@ =~= seq!['\'']);
        }
        let name = &shape.values[i];
        let mut line = name.clone();
        match values_of(&res.values, name) {
            Some(v) => {
                if v.len() > 0 {
                    line.append("='");
                    push_joined_escaped(&mut line, v);
                    line.append("'");
                } else {
                    line.append("=");
                }
            },
            None => {
                line.append("=");
            },
        }
        let ghost lv = line@;
        let ghost ov = out@;
        out.push(line);
        proof {
            assert(views(out@) =~= views(ov).push(lv));
            assert(lv =~= vl[i as int]);
            assert(views(out@) =~= mid + vl.subrange(0, i + 1));
        }
        i = i + 1;
    }
    assert(vl.subrange(0, i as int) =~= vl);
    assert(views(out@) =~= start + level_lines(*shape, *res));
}

fn subcommand_text(parents: &Vec<String>, name: &String) -> (r: String)
    ensures
        r@ == subcommand_line(views(parents@), name@),
{
    proof {
        reveal_strlit("subcommand");
        reveal_strlit("_");
        reveal_strlit("=");
        assert("="@ =~= seq!['=']);
        assert("_"@ =~= seq!['_']);
        assert("subcommand"@ =~= seq!['s', 'u', 'b', 'c', 'o', 'm', 'm', 'a', 'n', 'd']);
        assert(views(parents@).subrange(0, 0) =~= Seq::<Seq<char>>::empty());
    }
    let mut r = String::from_str("subcommand");
    let mut i: usize = 0;
    while i < parents.len()
        invariant
            i <= parents.len(),
            r@ == subcommand_key(views(parents@).subrange(0, i as int)),
        decreases parents.len() - i,
    {
        proof {
            reveal_strlit("_");
            assert("_"@ =~= seq!['_']);
        }
        r.append("_");
        r.append(parents[i].as_str());
        proof {
            let p = views(parents@).subrange(0, i + 1);
            assert(p.drop_last() =~= views(parents@).subrange(0, i as int));
            assert(p.last() == parents@[i as int]@);
        }
        i = i + 1;
    }
    assert(views(parents@).subrange(0, i as int) =~= views(parents@));
    r.append("=");
    r.append(name.as_str());
    r
}

fn resolve_into(
    shape: &CommandShape,
    res: &Resolution,
    parents: &mut Vec<String>,
    out: &mut Vec<String>,
) -> (r: Result<(), ResolveError>)
    ensures
        views(final(parents)@) == views(old(parents)@),
        match resolution_lines(*shape, *res, views(old(parents)@)) {
            Some(lines) => r is Ok && views(final(out)@) == views(old(out)@) + lines,
            None => r is Err,
        },
    decreases res,
{
    push_level(shape, res, out);
    match &res.subcommand {
        None => Ok(()),
        Some((name, child)) => {
            match child_of(&shape.subcommands, name) {
                None => Err(ResolveError::UnknownSubcommand { name: name.clone() }),
                Some(cs) => {
                    let line = subcommand_text(parents, name);
                    let ghost lv = line@;
                    let ghost ov = out@;
                    out.push(line);
                    assert(views(out@) =~= views(ov).push(lv));
                    let ghost before = views(parents@);
                    parents.push(name.clone());
                    assert(views(parents@) =~= before.push(name@));
                    let r = resolve_into(cs, child, parents, out);
                    let ghost grown = parents@;
                    parents.pop();
                    assert(views(parents@) =~= views(grown).drop_last());
                    assert(views(parents@) =~= before);
                    match r {
                        Ok(()) => {
                            assert(views(final(out)@) =~= views(old(out)@) + resolution_lines(
                                *shape,
                                *res,
                                before,
                            ).unwrap());
                            Ok(())
                        },
                        Err(e) => Err(e),
                    }
                },
            }
        },
    }
}

/// The assignment lines for a resolution against a shape, root level first.
pub fn resolve(shape: &CommandShape, res: &Resolution) -> (r: Result<Vec<String>, ResolveError>)
    ensures
        match resolution_lines(*shape, *res, Seq::empty()) {
            Some(lines) => r is Ok && views(r->Ok_0@) == lines,
            None => r is Err,
        },
{
    let mut parents: Vec<String> = Vec::new();
    let mut out: Vec<String> = Vec::new();
    assert(views(parents@) =~= Seq::<Seq<char>>::empty());
    assert(views(out@) =~= Seq::<Seq<char>>::empty());
    match resolve_into(shape, res, &mut parents, &mut out) {
        Ok(()) => {
            assert(views(out@) =~= Seq::<Seq<char>>::empty() + resolution_lines(
                *shape,
                *res,
                Seq::empty(),
            ).unwrap());
            Ok(out)
        },
        Err(e) => Err(e),
    }
}

} // verus!
