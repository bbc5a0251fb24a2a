//! Text helpers: splitting a command line into tokens.
use vstd::prelude::*;
use vstd::string::StrSliceExecFns;
use vstd::string::StringExecFns;

verus! {

/// The tokens of `s` split at every space: a space ends the current token and
/// starts a new, empty one, any other character extends the current token. So
/// two spaces in a row give an empty token, and the empty line gives one empty
/// token.
pub open spec fn split_spaces(s: Seq<char>) -> Seq<Seq<char>>
    decreases s.len(),
{
    if s.len() == 0 {
        seq![Seq::<char>::empty()]
    } else {
        let before = split_spaces(s.drop_last());
        if s.last() == ' ' {
            before.push(Seq::<char>::empty())
        } else {
            before.update(before.len() - 1, before.last().push(s.last()))
        }
    }
}

/// The views of a vector of strings.
pub open spec fn views(v: Seq<String>) -> Seq<Seq<char>> {
    v.map_values(|s: String| s@)
}

proof fn lemma_split_spaces_nonempty(s: Seq<char>)
    ensures
        split_spaces(s).len() >= 1,
    decreases s.len(),
{
    if s.len() > 0 {
        lemma_split_spaces_nonempty(s.drop_last());
    }
}

/// Splits `line` at every single space, keeping empty tokens.
pub fn split_words(line: &str) -> (r: Vec<String>)
    ensures
        views(r@) == split_spaces(line@),
{
    let n = line.unicode_len();
    let mut out: Vec<String> = Vec::new();
    let mut start: usize = 0;
    let mut i: usize = 0;
    proof {
        assert(views(out@).push(line@.subrange(0, 0)) =~~= split_spaces(line@.subrange(0, 0)));
    }
    while i < n
        invariant
            n == line@.len(),
            start <= i <= n,
            views(out@).push(line@.subrange(start as int, i as int)) == split_spaces(
                line@.subrange(0, i as int),
            ),
        decreases n - i,
    {
        let c = line.get_char(i);
        let ghost pre = line@.subrange(0, i as int);
        let ghost cur = line@.subrange(0, i + 1);
        proof {
            assert(cur.drop_last() =~= pre);
            assert(cur.last() == c);
            lemma_split_spaces_nonempty(pre);
            assert(split_spaces(pre) == views(out@).push(line@.subrange(start as int, i as int)));
        }
        if c == ' ' {
            let word = String::from_str(line.substring_char(start, i));
            out.push(word);
            i = i + 1;
            start = i;
            proof {
                assert(views(out@) =~= split_spaces(pre));
                assert(split_spaces(cur) == split_spaces(pre).push(Seq::<char>::empty()));
                assert(views(out@).push(line@.subrange(start as int, i as int)) =~~= split_spaces(
                    cur,
                ));
            }
        } else {
            proof {
                assert(line@.subrange(start as int, i + 1) =~= line@.subrange(
                    start as int,
                    i as int,
                ).push(c));
            }
            i = i + 1;
            proof {
                assert(views(out@).push(line@.subrange(start as int, i as int)) =~~= split_spaces(
                    cur,
                ));
            }
        }
    }
    let last = String::from_str(line.substring_char(start, n));
    out.push(last);
    proof {
        assert(line@.subrange(0, n as int) =~= line@);
        assert(views(out@) =~= split_spaces(line@));
    }
    out
}


/// The decimal digit `d`.
pub open spec fn digit_char(d: int) -> char {
    seq!['0', '1', '2', '3', '4', '5', '6', '7', '8', '9'][d]
}

/// The decimal digits of `n`, most significant first, without leading zeros.
pub open spec fn digits(n: nat) -> Seq<char>
    decreases n,
{
    if n < 10 {
        seq![digit_char(n as int)]
    } else {
        digits(n / 10).push(digit_char((n % 10) as int))
    }
}

/// `n` written in decimal, with a leading `-` when negative.
pub open spec fn decimal(n: int) -> Seq<char> {
    if n < 0 {
        seq!['-'] + digits((-n) as nat)
    } else {
        digits(n as nat)
    }
}

/// The strings of `ss` with `sep` between each two.
pub open spec fn join(ss: Seq<Seq<char>>, sep: Seq<char>) -> Seq<char>
    decreases ss.len(),
{
    if ss.len() == 0 {
        Seq::empty()
    } else if ss.len() == 1 {
        ss[0]
    } else {
        join(ss.drop_last(), sep) + sep + ss.last()
    }
}

/// Appends the decimal digits of `n` to `s`.
fn push_digits(s: &mut String, n: u64)
    ensures
        final(s)@ == old(s)@ + digits(n as nat),
    decreases n,
{
    let table = "0123456789";
    proof {
        reveal_strlit("0123456789");
    }
    if n >= 10 {
        push_digits(s, n / 10);
    }
    let d = (n % 10) as usize;
    s.append(table.substring_char(d, d + 1));
    proof {
        assert(table@.subrange(d as int, d + 1) =~= seq![digit_char(d as int)]);
        if n >= 10 {
            assert(digits(n as nat) == digits((n / 10) as nat).push(digit_char(d as int)));
        } else {
            assert(digits(n as nat) =~= seq![digit_char(d as int)]);
        }
    }
}

/// `n` in decimal.
pub fn decimal_string(n: i32) -> (r: String)
    ensures
        r@ == decimal(n as int),
{
    let mut s = String::new();
    if n < 0 {
        s.append("-");
        proof {
            reveal_strlit("-");
        }
        let m: i64 = -(n as i64);
        push_digits(&mut s, m as u64);
        proof {
            assert(s@ =~= seq!['-'] + digits((-n) as nat));
        }
    } else {
        push_digits(&mut s, n as u64);
        proof {
            assert(s@ =~= digits(n as nat));
        }
    }
    s
}

/// The views of a list of string slices.
pub open spec fn str_views(v: Seq<&str>) -> Seq<Seq<char>> {
    v.map_values(|s: &str| s@)
}

/// The strings of `items` with `sep` between each two.
pub fn join_strs(items: &[&str], sep: &str) -> (r: String)
    ensures
        r@ == join(str_views(items@), sep@),
{
    let mut s = String::new();
    let mut k: usize = 0;
    while k < items.len()
        invariant
            k <= items@.len(),
            s@ == join(str_views(items@).take(k as int), sep@),
        decreases items@.len() - k,
    {
        let ghost before = s@;
        if k > 0 {
            s.append(sep);
        }
        s.append(items[k]);
        proof {
            let vs = str_views(items@);
            assert(vs.take(k + 1).drop_last() =~= vs.take(k as int));
            if k == 0 {
                assert(s@ =~= vs.take(1)[0]);
            } else {
                assert(s@ =~= before + sep@ + vs[k as int]);
            }
        }
        k = k + 1;
    }
    proof {
        assert(str_views(items@).take(k as int) =~= str_views(items@));
    }
    s
}

} // verus!
