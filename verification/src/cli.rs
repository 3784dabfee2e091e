//! The command line: `label cmd args` groups separated by a `$` token. A
//! group needs at least a label and a command; an empty command line is
//! refused.

use vstd::prelude::*;

use crate::util::bytes_eq;

verus! {

/// The views of a list of byte strings.
pub open spec fn views_of_args(s: Seq<Vec<u8>>) -> Seq<Seq<u8>> {
    s.map_values(|v: Vec<u8>| v@)
}

/// The views of a list of command groups.
pub open spec fn views_of_groups(s: Seq<Vec<Vec<u8>>>) -> Seq<Seq<Seq<u8>>> {
    s.map_values(|g: Vec<Vec<u8>>| views_of_args(g@))
}

/// The separator token.
pub open spec fn dollar_tok() -> Seq<u8> {
    seq![36u8]
}

/// Parsing, one argument at a time: `cur` is the group being collected and
/// `acc` the completed groups. A group closed by a separator or by the end
/// of the line must hold at least two words; a line without any group is
/// refused.
pub open spec fn parse_rec(
    args: Seq<Seq<u8>>,
    cur: Seq<Seq<u8>>,
    acc: Seq<Seq<Seq<u8>>>,
) -> Option<Seq<Seq<Seq<u8>>>>
    decreases args.len(),
{
    if args.len() == 0 {
        if cur.len() == 0 {
            if acc.len() == 0 {
                None
            } else {
                Some(acc)
            }
        } else if cur.len() < 2 {
            None
        } else {
            Some(acc.push(cur))
        }
    } else if args[0] == dollar_tok() {
        if cur.len() < 2 {
            None
        } else {
            parse_rec(args.drop_first(), Seq::empty(), acc.push(cur))
        }
    } else {
        parse_rec(args.drop_first(), cur.push(args[0]), acc)
    }
}

/// What a command line means: its groups, or nothing when it is malformed.
pub open spec fn spec_parse(args: Seq<Seq<u8>>) -> Option<Seq<Seq<Seq<u8>>>> {
    parse_rec(args, Seq::empty(), Seq::empty())
}

/// Split the arguments into command groups at each `$` token. Each group
/// must hold at least a label and a command, and at least one group must be
/// present; otherwise the line is refused.
pub fn parse_commands(args: Vec<Vec<u8>>) -> (r: Result<Vec<Vec<Vec<u8>>>, ()>)
    ensures
        match r {
            Result::Ok(gs) => spec_parse(views_of_args(args@)) == Some(views_of_groups(gs@)),
            Result::Err(_) => spec_parse(views_of_args(args@)) is None,
        },
{
    let ghost av = views_of_args(args@);
    let mut dollar: Vec<u8> = Vec::new();
    dollar.push(36u8);
    proof {
        assert(dollar@ =~= dollar_tok());
    }
    let n: usize = args.len();
    let mut acc: Vec<Vec<Vec<u8>>> = Vec::new();
    let mut cur: Vec<Vec<u8>> = Vec::new();
    let mut i: usize = 0;
    proof {
        assert(av.subrange(0, n as int) =~= av);
        assert(views_of_args(cur@) =~= Seq::<Seq<u8>>::empty());
        assert(views_of_groups(acc@) =~= Seq::<Seq<Seq<u8>>>::empty());
    }
    while i < n
        invariant
            n == args@.len(),
            av == views_of_args(args@),
            dollar@ == dollar_tok(),
            0 <= i <= n,
            spec_parse(av) == parse_rec(
                av.subrange(i as int, n as int),
                views_of_args(cur@),
                views_of_groups(acc@),
            ),
        decreases n - i,
    {
        let ghost rest = av.subrange(i as int, n as int);
        let ghost old_curv = views_of_args(cur@);
        let ghost old_accv = views_of_groups(acc@);
        proof {
            assert(rest.drop_first() =~= av.subrange(i + 1, n as int));
            assert(rest[0] == av[i as int]);
            assert(av[i as int] == args@[i as int]@);
        }
        let a = crate::util::dup_bytes(&args[i]);
        if bytes_eq(&a, &dollar) {
            if cur.len() < 2 {
                proof {
                    assert(spec_parse(av) is None);
                }
                return Err(());
            }
            let done = cur;
            cur = Vec::new();
            acc.push(done);
            proof {
                assert(views_of_groups(acc@) =~= old_accv.push(old_curv));
                assert(views_of_args(cur@) =~= Seq::<Seq<u8>>::empty());
                assert(parse_rec(rest, old_curv, old_accv) == parse_rec(
                    rest.drop_first(),
                    Seq::empty(),
                    old_accv.push(old_curv),
                ));
            }
        } else {
            cur.push(a);
            proof {
                assert(views_of_args(cur@) =~= old_curv.push(av[i as int]));
                assert(parse_rec(rest, old_curv, old_accv) == parse_rec(
                    rest.drop_first(),
                    old_curv.push(rest[0]),
                    old_accv,
                ));
            }
        }
        i = i + 1;
    }
    proof {
        assert(av.subrange(n as int, n as int) =~= Seq::<Seq<u8>>::empty());
    }
    if cur.len() == 0 {
        if acc.len() == 0 {
            return Err(());
        }
        Ok(acc)
    } else if cur.len() < 2 {
        Err(())
    } else {
        let ghost old_curv = views_of_args(cur@);
        let ghost old_accv = views_of_groups(acc@);
        let done = cur;
        acc.push(done);
        proof {
            assert(views_of_groups(acc@) =~= old_accv.push(old_curv));
        }
        Ok(acc)
    }
}

} // verus!
