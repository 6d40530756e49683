//! Short-option parsing: `-a`, `-t`, `-l` and `-h`, possibly clustered, in
//! first-seen order, with duplicates and unknown characters rejected.

use vstd::prelude::*;
use crate::error::Error;

verus! {

/// The four recognized options.
#[derive(PartialEq, Eq, Structural, Clone, Copy, Debug)]
pub enum SubOption {
    Time,
    All,
    Long,
    HumanRead,
}

/// The option named by one cluster character, if any.
pub open spec fn char_option(c: char) -> Option<SubOption> {
    if c == 'a' {
        Some(SubOption::All)
    } else if c == 't' {
        Some(SubOption::Time)
    } else if c == 'l' {
        Some(SubOption::Long)
    } else if c == 'h' {
        Some(SubOption::HumanRead)
    } else {
        None
    }
}

/// An argument is an option cluster iff it begins with `-` but not with `--`.
pub open spec fn is_opt_token(s: Seq<char>) -> bool {
    s.len() >= 1 && s[0] == '-' && !(s.len() >= 2 && s[1] == '-')
}

/// The argument with every leading `-` removed.
pub open spec fn strip_dashes(s: Seq<char>) -> Seq<char>
    decreases s.len(),
{
    if s.len() > 0 && s[0] == '-' {
        strip_dashes(s.drop_first())
    } else {
        s
    }
}

/// What option parsing yields: the distinct options in first-seen order, or
/// the first offending character.
pub enum ParseOutcome {
    Parsed { opts: Seq<SubOption> },
    Failed { opt: char, duplicated: bool },
}

/// Folds the characters of one stripped cluster into the accumulated options.
pub open spec fn parse_chars(cs: Seq<char>, acc: Seq<SubOption>) -> ParseOutcome
    decreases cs.len(),
{
    if cs.len() == 0 {
        ParseOutcome::Parsed { opts: acc }
    } else {
        match char_option(cs[0]) {
            None => ParseOutcome::Failed { opt: cs[0], duplicated: false },
            Some(o) => {
                if acc.contains(o) {
                    ParseOutcome::Failed { opt: cs[0], duplicated: true }
                } else {
                    parse_chars(cs.drop_first(), acc.push(o))
                }
            },
        }
    }
}

/// Folds the whole argument vector; arguments that are not option clusters
/// (the program name, `--...` forms) are passed over.
pub open spec fn parse_tokens(args: Seq<Seq<char>>, acc: Seq<SubOption>) -> ParseOutcome
    decreases args.len(),
{
    if args.len() == 0 {
        ParseOutcome::Parsed { opts: acc }
    } else if is_opt_token(args[0]) {
        match parse_chars(strip_dashes(args[0]), acc) {
            ParseOutcome::Parsed { opts } => parse_tokens(args.drop_first(), opts),
            f => f,
        }
    } else {
        parse_tokens(args.drop_first(), acc)
    }
}

/// The outcome of parsing an argument vector from an empty option set.
pub open spec fn parse_args_spec(args: Seq<Seq<char>>) -> ParseOutcome {
    parse_tokens(args, Seq::empty())
}

/// No option occurs twice.
pub open spec fn distinct_opts(s: Seq<SubOption>) -> bool {
    forall|i: int, j: int| 0 <= i < j < s.len() ==> s[i] != s[j]
}

proof fn lemma_parse_chars_distinct(cs: Seq<char>, acc: Seq<SubOption>)
    requires
        distinct_opts(acc),
    ensures
        parse_chars(cs, acc) matches ParseOutcome::Parsed { opts } ==> distinct_opts(opts),
    decreases cs.len(),
{
    if cs.len() > 0 {
        match char_option(cs[0]) {
            None => {},
            Some(o) => {
                if !acc.contains(o) {
                    assert forall|i: int, j: int|
                        0 <= i < j < acc.push(o).len() implies acc.push(o)[i] != acc.push(
                        o,
                    )[j] by {
                        if j == acc.len() {
                            assert(acc[i] == acc.push(o)[i]);
                            assert(acc.contains(acc[i]));
                        }
                    }
                    lemma_parse_chars_distinct(cs.drop_first(), acc.push(o));
                }
            },
        }
    }
}

proof fn lemma_parse_tokens_distinct(args: Seq<Seq<char>>, acc: Seq<SubOption>)
    requires
        distinct_opts(acc),
    ensures
        parse_tokens(args, acc) matches ParseOutcome::Parsed { opts } ==> distinct_opts(opts),
    decreases args.len(),
{
    if args.len() > 0 {
        if is_opt_token(args[0]) {
            lemma_parse_chars_distinct(strip_dashes(args[0]), acc);
            match parse_chars(strip_dashes(args[0]), acc) {
                ParseOutcome::Parsed { opts } => {
                    lemma_parse_tokens_distinct(args.drop_first(), opts);
                },
                _ => {},
            }
        } else {
            lemma_parse_tokens_distinct(args.drop_first(), acc);
        }
    }
}

/// A successfully parsed option list never holds a duplicate.
pub proof fn lemma_parse_args_distinct(args: Seq<Seq<char>>)
    ensures
        parse_args_spec(args) matches ParseOutcome::Parsed { opts } ==> distinct_opts(opts),
{
    lemma_parse_tokens_distinct(args, Seq::empty());
}

/// The error value produced for the offending character `opt`.
pub open spec fn is_subopt_error(e: Error, opt: char, duplicated: bool) -> bool {
    &&& e matches Error::SubOption { sub, msg } && sub@ == seq![opt] && msg@ == (if duplicated {
        "duplicated"@
    } else {
        "not support"@
    })
}

/// Relies on char::to_string: the one-character string holding exactly `c`.
#[verifier::external_body]
fn char_string(c: char) -> (r: String)
    ensures
        r@ == seq![c],
{
    c.to_string()
}

fn contains_opt(v: &Vec<SubOption>, o: SubOption) -> (r: bool)
    ensures
        r == v@.contains(o),
{
    let mut i: usize = 0;
    while i < v.len()
        invariant
            i <= v@.len(),
            forall|k: int| 0 <= k < i ==> v@[k] != o,
        decreases v@.len() - i,
    {
        if v[i] == o {
            proof {
                assert(v@[i as int] == o);
            }
            return true;
        }
        i = i + 1;
    }
    proof {
        assert(!v@.contains(o));
    }
    false
}

proof fn lemma_strip_dashes_skip(s: Seq<char>, k: int)
    requires
        0 <= k <= s.len(),
        forall|j: int| 0 <= j < k ==> s[j] == '-',
        k == s.len() || s[k] != '-',
    ensures
        strip_dashes(s) == s.skip(k),
    decreases k,
{
    if k == 0 {
        assert(s.skip(0) =~= s);
    } else {
        let t = s.drop_first();
        assert(t =~= s.skip(1));
        lemma_strip_dashes_skip(t, k - 1);
        assert(t.skip(k - 1) =~= s.skip(k));
    }
}

/// Parses the raw argument vector into the ordered, duplicate-free option
/// list, or reports the first offending character.
pub fn parse_options(args: &Vec<String>) -> (r: Result<Vec<SubOption>, Error>)
    ensures
        match parse_args_spec(args.deep_view()) {
            ParseOutcome::Parsed { opts } => r matches Ok(v) && v@ == opts,
            ParseOutcome::Failed { opt, duplicated } => r matches Err(e) && is_subopt_error(
                e,
                opt,
                duplicated,
            ),
        },
{
    let ghost all: Seq<Seq<char>> = args.deep_view();
    let mut opts: Vec<SubOption> = Vec::new();
    proof {
        assert(all.skip(0) =~= all);
    }
    let mut i: usize = 0;
    while i < args.len()
        invariant
            i <= args@.len(),
            all == args.deep_view(),
            all.len() == args@.len(),
            parse_args_spec(all) == parse_tokens(all.skip(i as int), opts@),
        decreases args@.len() - i,
    {
        let token: &String = &args[i];
        let t: &str = token.as_str();
        proof {
            assert(all[i as int] == args@[i as int]@);
            assert(t@ == all[i as int]);
        }
        let tlen = t.unicode_len();
        let is_tok = tlen >= 1 && t.get_char(0) == '-' && !(tlen >= 2 && t.get_char(1) == '-');
        proof {
            assert(is_tok == is_opt_token(t@));
            assert(all.skip(i as int)[0] == t@);
            assert(all.skip(i as int).drop_first() =~= all.skip(i + 1));
        }
        if is_tok {
            let mut k: usize = 0;
            while k < tlen && t.get_char(k) == '-'
                invariant
                    k <= tlen,
                    tlen == t@.len(),
                    forall|j: int| 0 <= j < k ==> t@[j] == '-',
                decreases tlen - k,
            {
                k = k + 1;
            }
            proof {
                lemma_strip_dashes_skip(t@, k as int);
            }
            let mut j = k;
            while j < tlen
                invariant
                    k <= j <= tlen,
                    tlen == t@.len(),
                    t@ == all[i as int],
                    i < all.len(),
                    all == args.deep_view(),
                    all.len() == args@.len(),
                    parse_args_spec(all) == (match parse_chars(t@.skip(j as int), opts@) {
                        ParseOutcome::Parsed { opts: o } => parse_tokens(all.skip(i + 1), o),
                        f => f,
                    }),
                decreases tlen - j,
            {
                let c = t.get_char(j);
                proof {
                    assert(t@.skip(j as int)[0] == c);
                    assert(t@.skip(j as int).drop_first() =~= t@.skip(j + 1));
                }
                let mapped: Option<SubOption> = if c == 'a' {
                    Some(SubOption::All)
                } else if c == 't' {
                    Some(SubOption::Time)
                } else if c == 'l' {
                    Some(SubOption::Long)
                } else if c == 'h' {
                    Some(SubOption::HumanRead)
                } else {
                    None
                };
                proof {
                    assert(mapped == char_option(c));
                }
                match mapped {
                    None => {
                        return Err(
                            Error::SubOption {
                                sub: char_string(c),
                                msg: String::from_str("not support"),
                            },
                        );
                    },
                    Some(o) => {
                        if contains_opt(&opts, o) {
                            return Err(
                                Error::SubOption {
                                    sub: char_string(c),
                                    msg: String::from_str("duplicated"),
                                },
                            );
                        }
                        opts.push(o);
                    },
                }
                j = j + 1;
            }
            proof {
                assert(t@.skip(tlen as int) =~= Seq::<char>::empty());
            }
        }
        i = i + 1;
    }
    proof {
        assert(all.skip(args@.len() as int) =~= Seq::<Seq<char>>::empty());
    }
    Ok(opts)
}

} // verus!
