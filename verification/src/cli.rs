//! The command line: where the configuration file is.

use vstd::prelude::*;
use crate::config::strings_view;
use crate::text::{chars_eq, chars_of, has_prefix, slice_chars, starts_with, string_of};

verus! {

/// "--cfgfile".
pub open spec fn long_flag() -> Seq<char> {
    seq!['-', '-', 'c', 'f', 'g', 'f', 'i', 'l', 'e']
}

/// "-cfgfile".
pub open spec fn short_flag() -> Seq<char> {
    seq!['-', 'c', 'f', 'g', 'f', 'i', 'l', 'e']
}

/// "--cfgfile=".
pub open spec fn long_flag_eq() -> Seq<char> {
    seq!['-', '-', 'c', 'f', 'g', 'f', 'i', 'l', 'e', '=']
}

/// The configuration file that the arguments from index `i` on name: the
/// first `--cfgfile PATH`, `-cfgfile PATH` or `--cfgfile=PATH`.
pub open spec fn cfgfile_from(args: Seq<Seq<char>>, i: nat) -> Option<Seq<char>>
    decreases args.len() - i,
{
    if i >= args.len() {
        None
    } else {
        let a = args[i as int];
        if (a == long_flag() || a == short_flag()) && i + 1 < args.len() {
            Some(args[(i + 1) as int])
        } else if has_prefix(a, long_flag_eq()) {
            Some(a.skip(10))
        } else {
            cfgfile_from(args, i + 1)
        }
    }
}

/// The configuration file named on the command line `args` (whose first
/// element is the program), if any.
pub fn parse_cfgfile_arg(args: &[String]) -> (r: Option<String>)
    ensures
        match r {
            Some(p) => cfgfile_from(strings_view(args@), 1) == Some(p@),
            None => cfgfile_from(strings_view(args@), 1).is_none(),
        },
{
    let ghost all = strings_view(args@);
    let long = vec!['-', '-', 'c', 'f', 'g', 'f', 'i', 'l', 'e'];
    let short = vec!['-', 'c', 'f', 'g', 'f', 'i', 'l', 'e'];
    let long_eq = vec!['-', '-', 'c', 'f', 'g', 'f', 'i', 'l', 'e', '='];
    assert(long@ =~= long_flag() && short@ =~= short_flag() && long_eq@ =~= long_flag_eq());
    let mut i: usize = 1;
    while i < args.len()
        invariant
            1 <= i,
            all == strings_view(args@),
            long@ == long_flag(),
            short@ == short_flag(),
            long_eq@ == long_flag_eq(),
            cfgfile_from(all, 1) == cfgfile_from(all, i as nat),
        decreases args@.len() - i,
    {
        let a = chars_of(args[i].as_str());
        assert(a@ == all[i as int]);
        if (chars_eq(a.as_slice(), long.as_slice()) || chars_eq(a.as_slice(), short.as_slice()))
            && i + 1 < args.len() {
            let p = chars_of(args[i + 1].as_str());
            return Some(string_of(p.as_slice()));
        }
        if starts_with(a.as_slice(), long_eq.as_slice()) {
            let rest = slice_chars(a.as_slice(), 10, a.len());
            assert(rest@ =~= a@.skip(10));
            return Some(string_of(rest.as_slice()));
        }
        i += 1;
    }
    None
}

/// The configuration file is named by `--cfgfile PATH`, `-cfgfile PATH` or
/// `--cfgfile=PATH` after the program name; a flag without a value, or
/// arguments without any flag, name none.
pub proof fn lemma_cfgfile_forms(prog: Seq<char>, path: Seq<char>, rest: Seq<Seq<char>>, plain: Seq<Seq<char>>)
    requires
        forall|j: int| 0 <= j < plain.len() ==> plain[j].len() == 0 || #[trigger] plain[j][0] != '-',
    ensures
        cfgfile_from(seq![prog, seq!['-', '-', 'c', 'f', 'g', 'f', 'i', 'l', 'e'], path] + rest, 1)
            == Some(path),
        cfgfile_from(seq![prog, seq!['-', 'c', 'f', 'g', 'f', 'i', 'l', 'e'], path] + rest, 1) == Some(
            path,
        ),
        cfgfile_from(seq![prog, seq!['-', '-', 'c', 'f', 'g', 'f', 'i', 'l', 'e', '='] + path] + rest, 1)
            == Some(path),
        cfgfile_from(seq![prog, seq!['-', '-', 'c', 'f', 'g', 'f', 'i', 'l', 'e']], 1).is_none(),
        cfgfile_from(seq![prog] + plain, 1).is_none(),
{
    let l = seq!['-', '-', 'c', 'f', 'g', 'f', 'i', 'l', 'e'];
    let sh = seq!['-', 'c', 'f', 'g', 'f', 'i', 'l', 'e'];
    let le = seq!['-', '-', 'c', 'f', 'g', 'f', 'i', 'l', 'e', '='];
    assert(long_flag() =~= l && short_flag() =~= sh && long_flag_eq() =~= le);
    let a1 = seq![prog, l, path] + rest;
    assert(a1[1] == l && a1[2] == path);
    let a2 = seq![prog, sh, path] + rest;
    assert(a2[1] == sh && a2[2] == path);
    assert(sh != l) by {
        assert(sh.len() != l.len());
    }
    let a3 = seq![prog, le + path] + rest;
    assert(a3[1] == le + path);
    assert((le + path).take(10) =~= le);
    assert((le + path).skip(10) =~= path);
    assert(le + path != l && le + path != sh) by {
        assert((le + path).len() >= 10);
    }
    let a4 = seq![prog, l];
    assert(a4[1] == l);
    assert(!has_prefix(l, le));
    assert(cfgfile_from(a4, 2).is_none());
    let a5 = seq![prog] + plain;
    assert forall|j: int| 0 <= j < a5.len() && j >= 1 implies a5[j].len() == 0 || #[trigger] a5[j][0] != '-' by {
        assert(a5[j] == plain[j - 1]);
    }
    lemma_cfgfile_plain_from(a5, 1);
}

proof fn lemma_cfgfile_plain_from(args: Seq<Seq<char>>, i: nat)
    requires
        forall|j: int| 0 <= j < args.len() && j >= i ==> args[j].len() == 0 || #[trigger] args[j][0] != '-',
    ensures
        cfgfile_from(args, i).is_none(),
    decreases args.len() - i,
{
    if i < args.len() {
        let a = args[i as int];
        assert(a != long_flag() && a != short_flag()) by {
            if a.len() > 0 {
                assert(long_flag()[0] == '-' && short_flag()[0] == '-');
            }
        }
        assert(!has_prefix(a, long_flag_eq())) by {
            if has_prefix(a, long_flag_eq()) {
                assert(a.take(10)[0] == a[0]);
            }
        }
        lemma_cfgfile_plain_from(args, i + 1);
    }
}

} // verus!
