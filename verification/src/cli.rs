//! The command line: its one flag, `--resource-naming=alias|sku`.
use vstd::prelude::*;

use crate::text::{chars_of, string_of, trim_bounds, trim_matching};
use crate::vfio::{naming_error, Naming};

verus! {

/// The error every argument other than the naming flag gets.
pub open spec fn usage_message() -> Seq<char> {
    "usage: kata-device-plugin [--resource-naming=alias|sku]"@
}

/// The flag's prefix; the value follows it.
pub open spec fn naming_flag() -> Seq<char> {
    "--resource-naming="@
}

/// What `Naming::parse` gives for a value.
pub open spec fn naming_of_value(v: Seq<char>) -> Result<Naming, Seq<char>> {
    if v == "alias"@ {
        Ok(Naming::Alias)
    } else if v == "sku"@ {
        Ok(Naming::Sku)
    } else {
        Err(naming_error(v))
    }
}

/// The naming that `args` select, starting from `current`: each
/// `--resource-naming=<value>` (value trimmed) replaces it, the last one
/// wins; the first invalid value, or the first other argument, is an error.
pub open spec fn naming_from_args(args: Seq<Seq<char>>, current: Naming) -> Result<Naming, Seq<char>>
    decreases args.len(),
{
    if args.len() == 0 {
        Ok(current)
    } else {
        let a = args[0];
        if naming_flag().len() <= a.len() && a.take(naming_flag().len() as int) == naming_flag() {
            match naming_of_value(trim_matching(a.skip(naming_flag().len() as int), false)) {
                Ok(n) => naming_from_args(args.drop_first(), n),
                Err(e) => Err(e),
            }
        } else {
            Err(usage_message())
        }
    }
}

pub open spec fn views(args: Seq<String>) -> Seq<Seq<char>> {
    args.map_values(|s: String| s@)
}

/// The one flag: the naming selected by the program's arguments (without the
/// program name).  An argument templates directly in the DaemonSet spec, so
/// there is no config file or ConfigMap.
pub fn parse_naming(args: &Vec<String>) -> (r: Result<Naming, String>)
    ensures
        match r {
            Ok(n) => naming_from_args(views(args@), Naming::Alias) == Ok::<Naming, Seq<char>>(n),
            Err(e) => naming_from_args(views(args@), Naming::Alias) == Err::<Naming, Seq<char>>(e@),
        },
{
    let ghost all = views(args@);
    let flag = chars_of("--resource-naming=");
    let mut naming = Naming::Alias;
    let mut i: usize = 0;
    assert(all.skip(0) =~= all);
    while i < args.len()
        invariant
            i <= args@.len(),
            all == views(args@),
            flag@ == naming_flag(),
            naming_from_args(all, Naming::Alias) == naming_from_args(all.skip(i as int), naming),
        decreases args@.len() - i,
    {
        let ghost rest = all.skip(i as int);
        assert(rest[0] == args@[i as int]@);
        assert(rest.drop_first() =~= all.skip(i + 1));
        let a = chars_of(args[i].as_str());
        let mut is_flag = a.len() >= flag.len();
        let mut k: usize = 0;
        while is_flag && k < flag.len()
            invariant
                k <= flag@.len(),
                is_flag ==> flag@.len() <= a@.len(),
                is_flag ==> a@.take(k as int) == flag@.take(k as int),
                !is_flag ==> !(flag@.len() <= a@.len() && a@.take(flag@.len() as int) == flag@),
            decreases flag@.len() - k + (if is_flag { 1int } else { 0int }),
        {
            if a[k] != flag[k] {
                assert(a@.take(flag@.len() as int)[k as int] == a@[k as int]);
                is_flag = false;
            } else {
                assert(a@.take(k + 1) =~= a@.take(k as int).push(a@[k as int]));
                assert(flag@.take(k + 1) =~= flag@.take(k as int).push(flag@[k as int]));
                k = k + 1;
            }
        }
        if is_flag {
            assert(flag@.take(flag@.len() as int) =~= flag@);
            assert(a@.subrange(flag@.len() as int, a@.len() as int) =~= a@.skip(flag@.len() as int));
            let (lo, hi) = trim_bounds(&a, flag.len(), a.len(), false);
            let value = string_of(&a, lo, hi);
            match Naming::parse(value.as_str()) {
                Ok(n) => {
                    naming = n;
                },
                Err(e) => {
                    return Err(e);
                },
            }
        } else {
            return Err("usage: kata-device-plugin [--resource-naming=alias|sku]".to_owned());
        }
        i = i + 1;
    }
    Ok(naming)
}

} // verus!
