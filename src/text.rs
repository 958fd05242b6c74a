//! Text pieces of the output protocol: quoting of values, joining of
//! multi-valued arguments and decimal rendering of counts.
use vstd::prelude::*;
use vstd::string::*;
use crate::names::views;

verus! {

/// What one character of a value becomes inside a quoted assignment.
pub open spec fn escape_piece(c: char) -> Seq<char> {
    if c == '\'' {
        seq!['\\', '\'']
    } else {
        seq![c]
    }
}

/// A value with every single quote prefixed by a backslash.
pub open spec fn escaped(s: Seq<char>) -> Seq<char>
    decreases s.len(),
{
    if s.len() == 0 {
        Seq::empty()
    } else {
        escaped(s.drop_last()) + escape_piece(s.last())
    }
}

/// The reading a shell gives to an escaped value: a backslash followed by a
/// single quote stands for the quote, every other character for itself.
pub open spec fn unescaped(s: Seq<char>) -> Seq<char>
    decreases s.len(),
{
    if s.len() == 0 {
        Seq::empty()
    } else if s.len() >= 2 && s[0] == '\\' && s[1] == '\'' {
        seq!['\''] + unescaped(s.subrange(2, s.len() as int))
    } else {
        seq![s[0]] + unescaped(s.drop_first())
    }
}

/// The values of one argument joined by newlines.
pub open spec fn joined(v: Seq<Seq<char>>) -> Seq<char>
    decreases v.len(),
{
    if v.len() == 0 {
        Seq::empty()
    } else if v.len() == 1 {
        v[0]
    } else {
        joined(v.drop_last()) + seq!['\n'] + v.last()
    }
}

pub open spec fn digit_char(d: nat) -> char {
    if d == 0 { '0' }
    else if d == 1 { '1' }
    else if d == 2 { '2' }
    else if d == 3 { '3' }
    else if d == 4 { '4' }
    else if d == 5 { '5' }
    else if d == 6 { '6' }
    else if d == 7 { '7' }
    else if d == 8 { '8' }
    else { '9' }
}

/// The decimal digits of a number, without leading zeros.
pub open spec fn decimal(n: nat) -> Seq<char>
    decreases n,
{
    if n < 10 {
        seq![digit_char(n)]
    } else {
        decimal(n / 10) + seq![digit_char(n % 10)]
    }
}

proof fn lemma_escaped_prepend(c: char, t: Seq<char>)
    ensures
        escaped(seq![c] + t) == escape_piece(c) + escaped(t),
    decreases t.len(),
{
    if t.len() == 0 {
        assert(seq![c] + t =~= seq![c]);
        assert((seq![c]).drop_last() =~= Seq::<char>::empty());
        assert(escaped(Seq::<char>::empty()) =~= Seq::<char>::empty());
        assert(escaped(seq![c]) =~= escape_piece(c));
        assert(escape_piece(c) + escaped(t) =~= escape_piece(c));
    } else {
        let s = seq![c] + t;
        assert(s.drop_last() =~= seq![c] + t.drop_last());
        assert(s.last() == t.last());
        lemma_escaped_prepend(c, t.drop_last());
        assert(escaped(s) =~= escape_piece(c) + escaped(t));
    }
}

/// Reading an escaped value back gives the value itself.
pub proof fn lemma_unescape_escaped(s: Seq<char>)
    ensures
        unescaped(escaped(s)) == s,
    decreases s.len(),
{
    if s.len() == 0 {
        assert(escaped(s) =~= Seq::<char>::empty());
    } else {
        let c = s[0];
        let t = s.drop_first();
        assert(s =~= seq![c] + t);
        lemma_escaped_prepend(c, t);
        lemma_unescape_escaped(t);
        let e = escaped(s);
        if c == '\'' {
            assert(e =~= seq!['\\', '\''] + escaped(t));
            assert(e.subrange(2, e.len() as int) =~= escaped(t));
            assert(unescaped(e) =~= seq!['\''] + t);
        } else {
            assert(e =~= seq![c] + escaped(t));
            assert(e.drop_first() =~= escaped(t));
            if t.len() > 0 {
                assert(t =~= seq![t[0]] + t.drop_first());
                lemma_escaped_prepend(t[0], t.drop_first());
                assert(e[1] != '\'');
            }
            assert(unescaped(e) =~= seq![c] + t);
        }
    }
}

fn digit_str(d: u64) -> (r: &'static str)
    requires
        d < 10,
    ensures
        r@ == seq![digit_char(d as nat)],
{
    proof {
        reveal_strlit("0");
        reveal_strlit("1");
        reveal_strlit("2");
        reveal_strlit("3");
        reveal_strlit("4");
        reveal_strlit("5");
        reveal_strlit("6");
        reveal_strlit("7");
        reveal_strlit("8");
        reveal_strlit("9");
    }
    if d == 0 {
        "0"
    } else if d == 1 {
        "1"
    } else if d == 2 {
        "2"
    } else if d == 3 {
        "3"
    } else if d == 4 {
        "4"
    } else if d == 5 {
        "5"
    } else if d == 6 {
        "6"
    } else if d == 7 {
        "7"
    } else if d == 8 {
        "8"
    } else {
        "9"
    }
}

/// Appends the decimal digits of `n`.
pub fn push_decimal(out: &mut String, n: u64)
    ensures
        final(out)@ == old(out)@ + decimal(n as nat),
    decreases n,
{
    if n >= 10 {
        push_decimal(out, n / 10);
    }
    out.append(digit_str(n % 10));
    assert(final(out)@ =~= old(out)@ + decimal(n as nat));
}

/// Appends `s` with every single quote escaped.
pub fn push_escaped(out: &mut String, s: &str)
    ensures
        final(out)@ == old(out)@ + escaped(s@),
{
    let n = s.unicode_len();
    let ghost start = out@;
    let mut i: usize = 0;
    while i < n
        invariant
            n == s@.len(),
            i <= n,
            out@ == start + escaped(s@.subrange(0, i as int)),
        decreases n - i,
    {
        let c = s.get_char(i);
        proof {
            reveal_strlit("\\'");
            assert(s@.subrange(0, i + 1).drop_last() =~= s@.subrange(0, i as int));
        }
        if c == '\'' {
            out.append("\\'");
        } else {
            out.append(s.substring_char(i, i + 1));
            assert(s@.subrange(i as int, i + 1) =~= seq![c]);
        }
        i = i + 1;
        assert(out@ =~= start + escaped(s@.subrange(0, i as int)));
    }
    assert(s@.subrange(0, n as int) =~= s@);
}

/// Appends the values joined by newlines, each one escaped.
pub fn push_joined_escaped(out: &mut String, values: &Vec<String>)
    ensures
        final(out)@ == old(out)@ + escaped(joined(views(values@))),
{
    let ghost start = out@;
    let ghost vs = views(values@);
    let mut i: usize = 0;
    while i < values.len()
        invariant
            vs == views(values@),
            i <= values.len(),
            out@ == start + escaped(joined(vs.subrange(0, i as int))),
        decreases values.len() - i,
    {
        if i > 0 {
            out.append("\n");
            proof {
                reveal_strlit("\n");
            }
        }
        push_escaped(out, values[i].as_str());
        proof {
            let pre = vs.subrange(0, i as int);
            let post = vs.subrange(0, i + 1);
            assert(post.drop_last() =~= pre);
            assert(post.last() == values@[i as int]@);
            if i > 0 {
                lemma_escaped_concat(joined(pre), seq!['\n']);
                lemma_escaped_concat(joined(pre) + seq!['\n'], post.last());
                assert(escaped(seq!['\n']) =~= seq!['\n']) by {
                    assert(seq!['\n'].drop_last() =~= Seq::<char>::empty());
                    assert(escaped(Seq::<char>::empty()) =~= Seq::<char>::empty());
                }
            } else {
                assert(pre =~= Seq::<Seq<char>>::empty());
                assert(joined(post) == post[0]);
            }
        }
        i = i + 1;
        assert(out@ =~= start + escaped(joined(vs.subrange(0, i as int))));
    }
    assert(vs.subrange(0, values.len() as int) =~= vs);
}

proof fn lemma_escaped_concat(a: Seq<char>, b: Seq<char>)
    ensures
        escaped(a + b) == escaped(a) + escaped(b),
    decreases b.len(),
{
    if b.len() == 0 {
        assert(a + b =~= a);
        assert(escaped(a) + escaped(b) =~= escaped(a));
    } else {
        lemma_escaped_concat(a, b.drop_last());
        assert((a + b).drop_last() =~= a + b.drop_last());
        assert((a + b).last() == b.last());
        assert(escaped(a + b) =~= escaped(a) + escaped(b));
    }
}

} // verus!
