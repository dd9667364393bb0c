//! Looking up the value of a command-line option.

use vstd::prelude::*;

use crate::text::str_eq;

verus! {

/// The position of the last argument equal to `key`.
pub open spec fn last_match(args: Seq<Seq<char>>, key: Seq<char>) -> Option<int>
    decreases args.len(),
{
    if args.len() == 0 {
        None
    } else if args.last() == key {
        Some(args.len() - 1)
    } else {
        last_match(args.drop_last(), key)
    }
}

/// The value of option `key`: the argument after the last one equal to
/// `key`, if there is one.
pub open spec fn option_value(args: Seq<Seq<char>>, key: Seq<char>) -> Option<Seq<char>> {
    match last_match(args, key) {
        Some(i) => if i + 1 < args.len() {
            Some(args[i + 1])
        } else {
            None
        },
        None => None,
    }
}

/// The arguments as character sequences.
pub open spec fn arg_views(args: Seq<String>) -> Seq<Seq<char>> {
    args.map_values(|a: String| a@)
}

/// Where `last_match` finds `key`, and that no later argument equals it.
pub proof fn lemma_last_match(args: Seq<Seq<char>>, key: Seq<char>)
    ensures
        last_match(args, key) matches Some(i) ==> 0 <= i < args.len() && args[i] == key && forall|
            j: int,
        | i < j < args.len() ==> args[j] != key,
        last_match(args, key) is None ==> forall|j: int| 0 <= j < args.len() ==> args[j] != key,
    decreases args.len(),
{
    if args.len() > 0 && args.last() != key {
        lemma_last_match(args.drop_last(), key);
        assert forall|j: int| 0 <= j < args.len() - 1 implies args[j] == args.drop_last()[j] by {}
    }
}

/// Parses an argument from the command line: for `--identities a@foo.com,foo`
/// and the key `--identities`, the value `a@foo.com,foo`. Where the key is
/// given more than once the last one counts; `None` where the key is absent or
/// is the last argument.
pub fn parse_from_cli(args: &[String], key: &str) -> (r: Option<String>)
    ensures
        (match r {
            Some(v) => option_value(arg_views(args@), key@) == Some(v@),
            None => option_value(arg_views(args@), key@) is None,
        }),
        r matches Some(v) ==> exists|i: int|
            0 <= i && i + 1 < args@.len() && (#[trigger] args@[i])@ == key@ && v@ == args@[i
                + 1]@ && forall|m: int| i < m < args@.len() ==> args@[m]@ != key@,
        r is None ==> (forall|i: int| 0 <= i < args@.len() ==> (#[trigger] args@[i])@ != key@)
            || args@[args@.len() - 1]@ == key@,
{
    proof {
        lemma_last_match(arg_views(args@), key@);
    }
    let ghost views = arg_views(args@);
    let mut index: Option<usize> = None;
    for idx in 0..args.len()
        invariant
            views == arg_views(args@),
            index matches Some(i) ==> i < idx && last_match(views.take(idx as int), key@) == Some(
                i as int,
            ),
            index is None ==> last_match(views.take(idx as int), key@) is None,
    {
        assert(views.take(idx + 1).drop_last() =~= views.take(idx as int));
        assert(views.take(idx + 1).last() == args@[idx as int]@);
        if str_eq(args[idx].as_str(), key) {
            index = Some(idx);
        }
    }
    assert(views.take(args@.len() as int) =~= views);
    proof {
        let views = arg_views(args@);
        if let Some(i) = last_match(views, key@) {
            assert(views[i] == args@[i]@);
            assert forall|m: int| i < m < args@.len() implies args@[m]@ != key@ by {
                assert(views[m] == args@[m]@);
            }
            if i + 1 < args@.len() {
                assert(views[i + 1] == args@[i + 1]@);
            }
        } else {
            assert forall|m: int| 0 <= m < args@.len() implies (#[trigger] args@[m])@ != key@ by {
                assert(views[m] == args@[m]@);
            }
        }
    }
    match index {
        Some(idx) => {
            if idx + 1 < args.len() {
                Some(args[idx + 1].clone())
            } else {
                None
            }
        },
        None => None,
    }
}

} // verus!
