//! Command-line arguments: flags with a value.

use crate::text::{
    find_text, first_index, lemma_first_index, lemma_is_first_index, pieces, split_nonempty, texts,
};
use vstd::prelude::*;
use vstd::string::*;

verus! {

/// Where a flag stands that has a value behind it: its first occurrence. A
/// first occurrence at the very end has no value, and then no later one counts.
pub open spec fn flag_index(args: Seq<Seq<char>>, flag: Seq<char>) -> Option<int> {
    match first_index(args, flag) {
        Some(i) => if i + 1 < args.len() {
            Some(i)
        } else {
            None
        },
        None => None,
    }
}

/// The value of a flag.
pub open spec fn flag_value(args: Seq<Seq<char>>, flag: Seq<char>) -> Option<Seq<char>> {
    match flag_index(args, flag) {
        Some(i) => Some(args[i + 1]),
        None => None,
    }
}

/// The arguments without a flag and its value.
pub open spec fn without_flag(args: Seq<Seq<char>>, flag: Seq<char>) -> Seq<Seq<char>> {
    match flag_index(args, flag) {
        Some(i) => args.take(i) + args.skip(i + 2),
        None => args,
    }
}

/// An optional text as a mathematical value.
pub open spec fn text_view(t: Option<String>) -> Option<Seq<char>> {
    match t {
        Some(t) => Some(t@),
        None => None,
    }
}

/// Takes `--flag value` out of the arguments, at the first occurrence. Where
/// the flag is missing or has no value, the arguments stay as they are.
pub fn take_flag(args: &mut Vec<String>, flag: &str) -> (r: Option<String>)
    ensures
        text_view(r) == flag_value(texts(old(args)@), flag@),
        texts(final(args)@) == without_flag(texts(old(args)@), flag@),
        r is Some ==> final(args)@.len() == old(args)@.len() - 2,
        r is None ==> final(args)@ == old(args)@,
{
    let i: usize = match find_text(args, flag) {
        Some(i) => i,
        None => {
            return None;
        },
    };
    if args.len() - i < 2 {
        return None;
    }
    let ghost before = args@;
    let _flag = args.remove(i);
    let value = args.remove(i);
    proof {
        assert(value == before[i + 1]);
        assert(texts(before)[i + 1] == before[i + 1]@);
        assert(args@ =~= before.take(i as int) + before.skip(i + 2));
        assert(texts(args@) =~= texts(before).take(i as int) + texts(before).skip(i + 2));
    }
    Some(value)
}

/// A flag that was taken out occurs once less; arguments before it keep their
/// place, and those behind it move up.
pub proof fn law_taking_a_flag_keeps_the_rest(args: Seq<Seq<char>>, flag: Seq<char>, k: int)
    requires
        flag_index(args, flag) is Some,
        0 <= k < args.len() - 2,
    ensures
        without_flag(args, flag).len() == args.len() - 2,
        without_flag(args, flag)[k] == if k < flag_index(args, flag)->0 {
            args[k]
        } else {
            args[k + 2]
        },
{
    lemma_first_index(args, flag);
}

/// The names that all `--to` flags give: each value is a list with commas, and
/// empty entries do not count.
pub open spec fn to_names(args: Seq<Seq<char>>) -> Seq<Seq<char>>
    decreases args.len(),
{
    match flag_index(args, "--to"@) {
        None => Seq::empty(),
        Some(i) => if without_flag(args, "--to"@).len() < args.len() {
            pieces(args[i + 1], ',') + to_names(without_flag(args, "--to"@))
        } else {
            Seq::empty()
        },
    }
}

/// The arguments that are left when all `--to` flags are taken out.
pub open spec fn without_to(args: Seq<Seq<char>>) -> Seq<Seq<char>>
    decreases args.len(),
{
    match flag_index(args, "--to"@) {
        None => args,
        Some(_) => if without_flag(args, "--to"@).len() < args.len() {
            without_to(without_flag(args, "--to"@))
        } else {
            args
        },
    }
}

/// Takes all `--to` flags out of the arguments and returns the names they give.
/// No names mean no restriction.
pub fn collect_to_names(args: &mut Vec<String>) -> (r: Vec<String>)
    ensures
        texts(r@) == to_names(texts(old(args)@)),
        texts(final(args)@) == without_to(texts(old(args)@)),
{
    let ghost start = texts(args@);
    let mut out: Vec<String> = Vec::new();
    assert(texts(out@) =~= Seq::<Seq<char>>::empty());
    assert(texts(out@) + to_names(start) =~= to_names(start));
    loop
        invariant
            start == texts(old(args)@),
            texts(out@) + to_names(texts(args@)) == to_names(start),
            without_to(texts(args@)) == without_to(start),
        decreases args@.len(),
    {
        let ghost before = texts(args@);
        match take_flag(args, "--to") {
            Some(value) => {
                proof {
                    lemma_first_index(before, "--to"@);
                    assert(texts(args@).len() < before.len());
                }
                let mut names = split_nonempty(value.as_str(), ',');
                let ghost so_far = out@;
                let ghost added = names@;
                out.append(&mut names);
                proof {
                    assert(texts(out@) =~= texts(so_far) + texts(added));
                    assert(texts(out@) + to_names(texts(args@)) =~= texts(so_far) + to_names(
                        before,
                    ));
                }
            },
            None => {
                assert(texts(out@) + to_names(texts(args@)) =~= texts(out@));
                return out;
            },
        }
    }
}

/// The value of a flag is the argument behind its first occurrence; the two are
/// taken out and every other argument stays. A first occurrence at the very end
/// has no value, and then nothing is taken out.
pub proof fn law_value_stands_behind_the_flag(args: Seq<Seq<char>>, flag: Seq<char>, i: int)
    requires
        0 <= i < args.len(),
        args[i] == flag,
        forall|j: int| 0 <= j < i ==> #[trigger] args[j] != flag,
    ensures
        i + 1 < args.len() ==> {
            &&& flag_value(args, flag) == Some(args[i + 1])
            &&& without_flag(args, flag) == args.take(i) + args.skip(i + 2)
        },
        i + 1 == args.len() ==> flag_value(args, flag) is None && without_flag(args, flag) == args,
{
    lemma_is_first_index(args, flag, i);
}

/// A flag that does not occur has no value and changes nothing.
pub proof fn law_missing_flag_changes_nothing(args: Seq<Seq<char>>, flag: Seq<char>)
    requires
        forall|j: int| 0 <= j < args.len() ==> #[trigger] args[j] != flag,
    ensures
        flag_value(args, flag) is None,
        without_flag(args, flag) == args,
{
    lemma_first_index(args, flag);
}

/// The names of all `--to` flags are those that the first one gives, and then
/// those that the flags in the other arguments give. Where no such flag has a
/// value, there are none, and the arguments stay.
pub proof fn law_names_of_all_to_flags(args: Seq<Seq<char>>, i: int)
    requires
        0 <= i <= args.len(),
        forall|j: int| 0 <= j < i ==> #[trigger] args[j] != "--to"@,
        i < args.len() ==> args[i] == "--to"@,
    ensures
        i + 1 < args.len() ==> {
            let rest = args.take(i) + args.skip(i + 2);
            &&& to_names(args) == pieces(args[i + 1], ',') + to_names(rest)
            &&& without_to(args) == without_to(rest)
        },
        i + 1 >= args.len() ==> to_names(args) == Seq::<Seq<char>>::empty() && without_to(args)
            == args,
{
    if i < args.len() {
        law_value_stands_behind_the_flag(args, "--to"@, i);
        lemma_is_first_index(args, "--to"@, i);
    } else {
        law_missing_flag_changes_nothing(args, "--to"@);
        lemma_first_index(args, "--to"@);
    }
}

} // verus!
