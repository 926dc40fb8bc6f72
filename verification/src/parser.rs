//! The command-line surface: one positional mode argument, read after
//! stripping leading dashes and concatenating, and the usage text.

use crate::chars::{char_from_u32, to_chars};
use vstd::prelude::*;

verus! {

/// The parsed command line: which output mode to run, a help request,
/// or nothing recognisable.
#[derive(Clone, Copy, Debug, PartialEq, Eq, Structural)]
pub enum Args {
    Xml,
    Plain,
    Help,
    Empty,
}

/// `s` with its leading dash characters removed.
pub open spec fn trim_dashes(s: Seq<char>) -> Seq<char>
    decreases s.len(),
{
    if s.len() > 0 && s[0] == '-' {
        trim_dashes(s.drop_first())
    } else {
        s
    }
}

/// All arguments joined into one token: each with leading dashes
/// removed, concatenated in order.
pub open spec fn joined_args(a: Seq<Seq<char>>) -> Seq<char>
    decreases a.len(),
{
    if a.len() == 0 {
        Seq::<char>::empty()
    } else {
        trim_dashes(a[0]) + joined_args(a.drop_first())
    }
}

/// `c` with an ASCII capital letter folded to lowercase; any other
/// character stands as it is.
pub open spec fn ascii_lower(c: char) -> char {
    if 'A' <= c && c <= 'Z' {
        ((c as u32) + 32) as char
    } else {
        c
    }
}

/// `s` with its ASCII capital letters folded to lowercase.
pub open spec fn ascii_lower_seq(s: Seq<char>) -> Seq<char> {
    s.map_values(|c: char| ascii_lower(c))
}

/// Which mode a joined token selects, compared without regard to ASCII
/// case; anything unrecognised counts as no argument at all.
pub open spec fn mode_of(j: Seq<char>) -> Args {
    let l = ascii_lower_seq(j);
    if l == seq!['x', 'm', 'l'] || l == seq!['x'] {
        Args::Xml
    } else if l == seq!['p', 'l', 'a', 'i', 'n'] || l == seq!['p'] {
        Args::Plain
    } else if l == seq!['h', 'e', 'l', 'p'] || l == seq!['h'] {
        Args::Help
    } else {
        Args::Empty
    }
}

/// The mode selected by a full argument vector, whose first entry is
/// the program name.
pub open spec fn parse_args_spec(a: Seq<Seq<char>>) -> Args {
    if a.len() <= 1 {
        Args::Empty
    } else {
        mode_of(joined_args(a.drop_first()))
    }
}

/// Joining distributes over appending one argument.
proof fn lemma_joined_args_push(a: Seq<Seq<char>>, x: Seq<char>)
    ensures
        joined_args(a.push(x)) == joined_args(a) + trim_dashes(x),
    decreases a.len(),
{
    if a.len() == 0 {
        let t = a.push(x);
        assert(t.len() == 1 && t[0] == x);
        assert(t.drop_first() =~= Seq::<Seq<char>>::empty());
        assert(joined_args(t) == trim_dashes(x) + joined_args(t.drop_first()));
        assert(trim_dashes(x) + Seq::<char>::empty() =~= trim_dashes(x));
        assert(joined_args(a) + trim_dashes(x) =~= trim_dashes(x));
    } else {
        assert(a.push(x)[0] == a[0]);
        assert(a.push(x).drop_first() =~= a.drop_first().push(x));
        lemma_joined_args_push(a.drop_first(), x);
        assert(trim_dashes(a[0]) + (joined_args(a.drop_first()) + trim_dashes(x)) =~= (trim_dashes(
            a[0],
        ) + joined_args(a.drop_first())) + trim_dashes(x));
    }
}

/// Dash-trimming skips any prefix of dashes.
proof fn lemma_trim_dashes_skip(s: Seq<char>, k: int)
    requires
        0 <= k <= s.len(),
        forall|m: int| 0 <= m < k ==> s[m] == '-',
    ensures
        trim_dashes(s) == trim_dashes(s.skip(k)),
    decreases k,
{
    if k > 0 {
        assert(s[0] == '-');
        assert(s.drop_first() =~= s.skip(1));
        lemma_trim_dashes_skip(s.skip(1), k - 1);
        assert(s.skip(1).skip(k - 1) =~= s.skip(k));
    } else {
        assert(s.skip(0) =~= s);
    }
}

impl Args {
    /// Read the mode from the raw argument vector. The first entry is
    /// the program name and is ignored.
    pub fn new(args: Vec<String>) -> (r: Args)
        requires
            args@.len() >= 1,
        ensures
            r == parse_args_spec(args.deep_view()),
    {
        let ghost adv = args.deep_view();
        if args.len() == 1 {
            return Args::Empty;
        }
        let mut joined: Vec<char> = Vec::new();
        let mut i: usize = 1;
        proof {
            assert(adv.subrange(1, 1) =~= Seq::<Seq<char>>::empty());
        }
        while i < args.len()
            invariant
                adv == args.deep_view(),
                adv.len() == args@.len(),
                1 <= i <= adv.len(),
                joined@ == joined_args(adv.subrange(1, i as int)),
            decreases adv.len() - i,
        {
            let cs = to_chars(args[i].as_str());
            assert(cs@ == adv[i as int]);
            let n = cs.len();
            let mut k: usize = 0;
            while k < n && cs[k] == '-'
                invariant
                    n == cs@.len(),
                    k <= n,
                    forall|m: int| 0 <= m < k ==> cs@[m] == '-',
                decreases n - k,
            {
                k += 1;
            }
            proof {
                lemma_trim_dashes_skip(cs@, k as int);
                if k < n {
                    assert(cs@.skip(k as int)[0] == cs@[k as int]);
                    assert(trim_dashes(cs@.skip(k as int)) == cs@.skip(k as int));
                } else {
                    assert(cs@.skip(k as int).len() == 0);
                    assert(trim_dashes(cs@.skip(k as int)) == cs@.skip(k as int));
                }
            }
            let ghost prev = joined@;
            let mut m: usize = k;
            while m < n
                invariant
                    n == cs@.len(),
                    k <= m <= n,
                    joined@ == prev + cs@.subrange(k as int, m as int),
                decreases n - m,
            {
                joined.push(cs[m]);
                proof {
                    assert(cs@.subrange(k as int, m + 1) =~= cs@.subrange(k as int, m as int).push(
                        cs@[m as int],
                    ));
                }
                m += 1;
            }
            proof {
                assert(cs@.subrange(k as int, n as int) =~= cs@.skip(k as int));
                assert(joined@ == prev + trim_dashes(adv[i as int]));
                assert(adv.subrange(1, i + 1) =~= adv.subrange(1, i as int).push(adv[i as int]));
                lemma_joined_args_push(adv.subrange(1, i as int), adv[i as int]);
            }
            i += 1;
        }
        proof {
            assert(adv.subrange(1, adv.len() as int) =~= adv.drop_first());
        }
        let mut folded: Vec<char> = Vec::new();
        let mut f: usize = 0;
        while f < joined.len()
            invariant
                f <= joined@.len(),
                folded@ == ascii_lower_seq(joined@.take(f as int)),
            decreases joined@.len() - f,
        {
            let c = joined[f];
            let u = c as u32;
            if u >= 65 && u <= 90 {
                let lc = char_from_u32(u + 32).unwrap();
                folded.push(lc);
                proof {
                    vstd::utf8::char_u32_cast(lc, (u + 32) as u32);
                    assert(lc == ascii_lower(c));
                }
            } else {
                folded.push(c);
                proof {
                    assert(c == ascii_lower(c));
                }
            }
            proof {
                assert(folded@ =~= ascii_lower_seq(joined@.take(f + 1)));
            }
            f += 1;
        }
        proof {
            assert(joined@.take(joined@.len() as int) =~= joined@);
            assert(folded@ == ascii_lower_seq(joined@));
        }
        let r = if folded.len() == 3 && folded[0] == 'x' && folded[1] == 'm' && folded[2] == 'l' {
            proof {
                assert(folded@ =~= seq!['x', 'm', 'l']);
            }
            Args::Xml
        } else if folded.len() == 1 && folded[0] == 'x' {
            proof {
                assert(folded@ =~= seq!['x']);
            }
            Args::Xml
        } else if folded.len() == 5 && folded[0] == 'p' && folded[1] == 'l' && folded[2] == 'a'
            && folded[3] == 'i' && folded[4] == 'n' {
            proof {
                assert(folded@ =~= seq!['p', 'l', 'a', 'i', 'n']);
            }
            Args::Plain
        } else if folded.len() == 1 && folded[0] == 'p' {
            proof {
                assert(folded@ =~= seq!['p']);
            }
            Args::Plain
        } else if folded.len() == 4 && folded[0] == 'h' && folded[1] == 'e' && folded[2] == 'l'
            && folded[3] == 'p' {
            proof {
                assert(folded@ =~= seq!['h', 'e', 'l', 'p']);
            }
            Args::Help
        } else if folded.len() == 1 && folded[0] == 'h' {
            proof {
                assert(folded@ =~= seq!['h']);
            }
            Args::Help
        } else {
            Args::Empty
        };
        r
    }
}

/// The usage text shown for `help`, for no argument, and for anything
/// unrecognised.
pub fn default_help_text() -> (r: &'static str)
    ensures
        r@ == ("\nUsage: xmlifyme [xml|plain|help]\ninfo:\n    input file should be in '.\\data\\' folder,\n    output will be in '.\\output\\' folder\n\n    xml: Output as xml\n    plain: Output as plain text in a .xml file\n    help: Display this help text")@,
{
    "\nUsage: xmlifyme [xml|plain|help]\ninfo:\n    input file should be in '.\\data\\' folder,\n    output will be in '.\\output\\' folder\n\n    xml: Output as xml\n    plain: Output as plain text in a .xml file\n    help: Display this help text"
}

} // verus!
