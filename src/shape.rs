//! The shape of a compiled command: the names the resolver walks, kept as
//! sorted sets at every level.
use vstd::prelude::*;
use crate::compile::Command;
use crate::names::{insert_sorted, sorted, views};
use crate::resolve::CommandShape;
use crate::schema::ArgSpec;

verus! {

pub open spec fn flag_names(c: Command) -> Seq<Seq<char>> {
    c.flags@.map_values(|a: ArgSpec| a.name@)
}

/// Option names followed by positional names.
pub open spec fn value_names(c: Command) -> Seq<Seq<char>> {
    c.opts@.map_values(|a: ArgSpec| a.name@) + c.args@.map_values(|a: ArgSpec| a.name@)
}

/// Whether `s` is the shape of `c`: at every level the flag names and the
/// value names as sorted sets, and the subcommands in order.
pub open spec fn shape_of(c: Command, s: CommandShape) -> bool
    decreases c,
{
    &&& s.wf()
    &&& views(s.flags@).to_set() == flag_names(c).to_set()
    &&& views(s.values@).to_set() == value_names(c).to_set()
    &&& s.subcommands@.len() == c.subcommands@.len()
    &&& forall|j: int|
        0 <= j < c.subcommands@.len() ==> (#[trigger] s.subcommands@[j]).0@
            == c.subcommands@[j].name@ && shape_of(c.subcommands@[j], s.subcommands@[j].1)
}

/// Whether no name is both a flag and a value name, at any level.
pub open spec fn kinds_disjoint(c: Command) -> bool
    decreases c,
{
    &&& forall|i: int, j: int|
        0 <= i < flag_names(c).len() && 0 <= j < value_names(c).len() ==> #[trigger] flag_names(
            c,
        )[i] != #[trigger] value_names(c)[j]
    &&& forall|j: int|
        0 <= j < c.subcommands@.len() ==> kinds_disjoint(#[trigger] c.subcommands@[j])
}

fn sorted_names(list: &Vec<ArgSpec>, into: &mut Vec<String>)
    requires
        sorted(views(old(into)@)),
    ensures
        sorted(views(final(into)@)),
        views(final(into)@).to_set() == views(old(into)@).to_set() + list@.map_values(
            |a: ArgSpec| a.name@,
        ).to_set(),
{
    let ghost start = views(into@).to_set();
    let ghost all = list@.map_values(|a: ArgSpec| a.name@);
    let mut i: usize = 0;
    assert(all.subrange(0, 0).to_set() =~= Set::<Seq<char>>::empty());
    assert(start + Set::<Seq<char>>::empty() =~= start);
    while i < list.len()
        invariant
            i <= list.len(),
            all == list@.map_values(|a: ArgSpec| a.name@),
            sorted(views(into@)),
            views(into@).to_set() == start + all.subrange(0, i as int).to_set(),
        decreases list.len() - i,
    {
        let ghost before = views(into@).to_set();
        let added = insert_sorted(into, list[i].name.clone());
        proof {
            let x = all[i as int];
            assert(all.subrange(0, i + 1) =~= all.subrange(0, i as int).push(x));
            assert(all.subrange(0, i + 1).to_set() =~= all.subrange(0, i as int).to_set().insert(x)) by {
                broadcast use vstd::seq_lib::group_seq_properties;
            }
            if !added {
                assert(before.contains(x));
                assert(before.insert(x) =~= before);
            }
            assert(views(into@).to_set() =~= start + all.subrange(0, i + 1).to_set());
        }
        i = i + 1;
    }
    assert(all.subrange(0, i as int) =~= all);
}

/// Whether no text of `a` is a text of `b`.
fn disjoint(a: &Vec<String>, b: &Vec<String>) -> (r: bool)
    ensures
        r == (forall|i: int, j: int|
            0 <= i < a@.len() && 0 <= j < b@.len() ==> (#[trigger] a@[i])@ != (#[trigger] b@[j])@),
{
    let mut i: usize = 0;
    while i < a.len()
        invariant
            i <= a.len(),
            forall|x: int, y: int|
                0 <= x < i && 0 <= y < b@.len() ==> (#[trigger] a@[x])@ != (#[trigger] b@[y])@,
        decreases a.len() - i,
    {
        let mut j: usize = 0;
        while j < b.len()
            invariant
                i < a.len(),
                j <= b.len(),
                forall|x: int, y: int|
                    0 <= x < i && 0 <= y < b@.len() ==> (#[trigger] a@[x])@ != (#[trigger] b@[y])@,
                forall|y: int| 0 <= y < j ==> a@[i as int]@ != (#[trigger] b@[y])@,
            decreases b.len() - j,
        {
            if a[i] == b[j] {
                return false;
            }
            j = j + 1;
        }
        i = i + 1;
    }
    true
}

impl Command {
    /// The names the resolver walks: flags and values of each level as sorted
    /// sets, and the subcommands in order; `None` where some level has a name
    /// that is both a flag and a value name.
    pub fn shape(&self) -> (r: Option<CommandShape>)
        ensures
            r is Some <==> kinds_disjoint(*self),
            match r {
                Some(s) => shape_of(*self, s),
                None => true,
            },
        decreases *self,
    {
        let mut flags: Vec<String> = Vec::new();
        let mut values: Vec<String> = Vec::new();
        proof {
            assert(views(flags@) =~= Seq::<Seq<char>>::empty());
            assert(views(flags@).to_set() =~= Set::<Seq<char>>::empty());
        }
        sorted_names(&self.flags, &mut flags);
        sorted_names(&self.opts, &mut values);
        sorted_names(&self.args, &mut values);
        let ghost fv = views(flags@);
        let ghost vv = views(values@);
        proof {
            assert(flag_names(*self).to_set() =~= Set::<Seq<char>>::empty() + flag_names(*self).to_set());
            assert(value_names(*self).to_set() =~= Set::<Seq<char>>::empty() + self.opts@.map_values(
                |a: ArgSpec| a.name@,
            ).to_set() + self.args@.map_values(|a: ArgSpec| a.name@).to_set()) by {
                broadcast use vstd::seq_lib::group_seq_properties;
            }
        }
        let level_ok = disjoint(&flags, &values);
        proof {
            let fnames = flag_names(*self);
            let vnames = value_names(*self);
            if level_ok {
                assert forall|i: int, j: int| 0 <= i < fnames.len() && 0 <= j < vnames.len()
                    implies #[trigger] fnames[i] != #[trigger] vnames[j] by {
                    assert(fnames.to_set().contains(fnames[i]));
                    assert(vnames.to_set().contains(vnames[j]));
                    if fnames[i] == vnames[j] {
                        let a = choose|a: int| 0 <= a < fv.len() && fv[a] == fnames[i];
                        let b = choose|b: int| 0 <= b < vv.len() && vv[b] == vnames[j];
                        assert(flags@[a]@ == values@[b]@);
                    }
                }
            } else {
                let (a, b) = choose|a: int, b: int|
                    0 <= a < flags@.len() && 0 <= b < values@.len() && flags@[a]@ == values@[b]@;
                assert(fv.to_set().contains(fv[a]));
                assert(vv.to_set().contains(vv[b]));
                let i = choose|i: int| 0 <= i < fnames.len() && fnames[i] == fv[a];
                let j = choose|j: int| 0 <= j < vnames.len() && vnames[j] == vv[b];
                assert(fnames[i] == vnames[j]);
            }
        }
        if !level_ok {
            return None;
        }
        let mut subcommands: Vec<(String, CommandShape)> = Vec::new();
        let mut j: usize = 0;
        while j < self.subcommands.len()
            invariant
                j <= self.subcommands.len(),
                subcommands@.len() == j,
                forall|k: int|
                    0 <= k < j ==> (#[trigger] subcommands@[k]).0@ == self.subcommands@[k].name@
                        && shape_of(self.subcommands@[k], subcommands@[k].1),
                forall|k: int| 0 <= k < j ==> kinds_disjoint(#[trigger] self.subcommands@[k]),
            decreases self.subcommands.len() - j,
        {
            proof {
                assert(decreases_to!(*self => self.subcommands));
                assert(decreases_to!(self.subcommands => self.subcommands@));
                assert(decreases_to!(self.subcommands@ => self.subcommands@[j as int]));
            }
            let child = match self.subcommands[j].shape() {
                Some(child) => child,
                None => {
                    return None;
                },
            };
            subcommands.push((self.subcommands[j].name.clone(), child));
            j = j + 1;
        }
        let r = CommandShape { flags, values, subcommands };
        Some(r)
    }
}

} // verus!
