//! Resource limits applied to supervised processes.
//!
//! A configuration names limit groups; each group is a list of
//! (resource-name, value) entries over the resources `max_procs`, `max_mem`
//! (in MiB) and `max_files`.  An application lists the groups that apply to
//! it, and each resource takes the minimum across those groups; anything
//! left unnamed stays unlimited.  The driver maps the result onto the
//! process resource limits for process count, address space and open files
//! when it spawns the child.

use vstd::prelude::*;

verus! {

/// A single resource bound: a number, or no bound at all.
#[derive(Clone, Copy, Debug, PartialEq, Eq, Structural)]
pub enum Limit {
    Infinity,
    Num(u64),
}

/// One applied limit, tagged by the resource it bounds.
#[derive(Clone, Copy, Debug, PartialEq, Eq, Structural)]
pub enum RLimit {
    Procs(Limit),
    Memory(Limit),
    Files(Limit),
}

/// The bounds for all three resources at once.
#[derive(Clone, Copy, Debug, PartialEq, Eq, Structural)]
pub struct LimitSet {
    pub procs: Limit,
    pub mem: Limit,
    pub files: Limit,
}

/// The tighter of two bounds, `Infinity` being the loosest.
pub open spec fn min_limit(a: Limit, b: Limit) -> Limit {
    match (a, b) {
        (x, Limit::Infinity) => x,
        (Limit::Infinity, y) => y,
        (Limit::Num(x), Limit::Num(y)) => if x < y {
            Limit::Num(x)
        } else {
            Limit::Num(y)
        },
    }
}

/// Per-resource minimum of two limit sets.
pub open spec fn combine_limits(a: LimitSet, b: LimitSet) -> LimitSet {
    LimitSet {
        procs: min_limit(a.procs, b.procs),
        mem: min_limit(a.mem, b.mem),
        files: min_limit(a.files, b.files),
    }
}

/// The limit set that bounds nothing.
pub open spec fn unlimited() -> LimitSet {
    LimitSet { procs: Limit::Infinity, mem: Limit::Infinity, files: Limit::Infinity }
}

/// Composing limit groups is commutative: the per-resource minimum does not
/// depend on the order of the groups.
pub proof fn lemma_combine_limits_commutative(a: LimitSet, b: LimitSet)
    ensures
        combine_limits(a, b) == combine_limits(b, a),
{
}

/// Composing limit groups is associative: grouping does not matter.
pub proof fn lemma_combine_limits_associative(a: LimitSet, b: LimitSet, c: LimitSet)
    ensures
        combine_limits(a, combine_limits(b, c)) == combine_limits(combine_limits(a, b), c),
{
}

/// The unbounded set is the identity of composition.
pub proof fn lemma_combine_limits_identity(a: LimitSet)
    ensures
        combine_limits(a, unlimited()) == a,
        combine_limits(unlimited(), a) == a,
{
}

/// Composition error: a named group is missing, or a group holds an entry
/// whose resource name is unknown.  The offending name is carried along.
#[derive(Clone, Debug)]
pub enum LimitsError {
    UnknownGroup(String),
    UnknownResource(String),
}

/// Bytes per mebibyte.
pub const MIB: u64 = 0x100000;

/// True when `key` names one of the three resources.
pub open spec fn valid_resource_key(key: Seq<char>) -> bool {
    key == "max_procs"@ || key == "max_mem"@ || key == "max_files"@
}

/// Tightens `acc` by one configuration entry.  `max_mem` values are given
/// in MiB and are scaled to bytes here.
pub open spec fn apply_entry(acc: LimitSet, key: Seq<char>, v: u64) -> LimitSet {
    if key == "max_procs"@ {
        LimitSet { procs: min_limit(acc.procs, Limit::Num(v)), ..acc }
    } else if key == "max_mem"@ {
        LimitSet { mem: min_limit(acc.mem, Limit::Num((v * MIB) as u64)), ..acc }
    } else {
        LimitSet { files: min_limit(acc.files, Limit::Num(v)), ..acc }
    }
}

/// Folds a whole group of entries over `acc`, left to right; fails on the
/// first unknown resource name.
pub open spec fn fold_entries(acc: LimitSet, entries: Seq<(String, u64)>) -> Result<
    LimitSet,
    LimitsError,
>
    decreases entries.len(),
{
    if entries.len() == 0 {
        Ok(acc)
    } else if !valid_resource_key(entries[0].0@) {
        Err(LimitsError::UnknownResource(entries[0].0))
    } else {
        fold_entries(apply_entry(acc, entries[0].0@, entries[0].1), entries.drop_first())
    }
}

/// First group in `configs` whose name is `name`, if any.
pub open spec fn lookup_group(
    configs: Seq<(String, Vec<(String, u64)>)>,
    name: Seq<char>,
) -> Option<Seq<(String, u64)>>
    decreases configs.len(),
{
    if configs.len() == 0 {
        None
    } else if configs[0].0@ == name {
        Some(configs[0].1@)
    } else {
        lookup_group(configs.drop_first(), name)
    }
}

/// Folds every group named in `names` over `acc`, left to right; fails on
/// the first missing group or unknown resource name.
pub open spec fn fold_groups(
    acc: LimitSet,
    configs: Seq<(String, Vec<(String, u64)>)>,
    names: Seq<String>,
) -> Result<LimitSet, LimitsError>
    decreases names.len(),
{
    if names.len() == 0 {
        Ok(acc)
    } else {
        match lookup_group(configs, names[0]@) {
            None => Err(LimitsError::UnknownGroup(names[0])),
            Some(entries) => match fold_entries(acc, entries) {
                Err(e) => Err(e),
                Ok(acc2) => fold_groups(acc2, configs, names.drop_first()),
            },
        }
    }
}

/// True when every `max_mem` entry of every group fits in bytes in a `u64`.
pub open spec fn mem_values_in_range(configs: Seq<(String, Vec<(String, u64)>)>) -> bool {
    forall|g: int, e: int|
        0 <= g < configs.len() && 0 <= e < configs[g].1@.len() && (#[trigger] configs[g].1@[e]).0@
            == "max_mem"@ ==> configs[g].1@[e].1 <= u64::MAX / MIB
}

/// Resolves the limit groups `names` against `configs`: each resource takes
/// the minimum over all named groups, `max_mem` scaled from MiB to bytes,
/// and the result is rendered as the three applied limits in a fixed order.
/// Fails, naming the offender, when a group is missing or an entry's
/// resource name is unknown.
pub fn get_limits(configs: &Vec<(String, Vec<(String, u64)>)>, names: &Vec<String>) -> (r: Result<
    Vec<RLimit>,
    LimitsError,
>)
    requires
        mem_values_in_range(configs@),
    ensures
        match fold_groups(unlimited(), configs@, names@) {
            Ok(ls) => r matches Ok(v) && v@ =~= seq![
                RLimit::Procs(ls.procs),
                RLimit::Memory(ls.mem),
                RLimit::Files(ls.files),
            ],
            Err(e) => r == Err::<Vec<RLimit>, LimitsError>(e),
        },
{
    let procs_key = String::from_str("max_procs");
    let mem_key = String::from_str("max_mem");
    let files_key = String::from_str("max_files");

    let mut procs = Limit::Infinity;
    let mut mem = Limit::Infinity;
    let mut files = Limit::Infinity;

    proof {
        assert(names@.skip(0) =~= names@);
    }
    let n = names.len();
    let mut i: usize = 0;
    while i < n
        invariant
            n == names@.len(),
            0 <= i <= n,
            mem_values_in_range(configs@),
            procs_key@ == "max_procs"@,
            mem_key@ == "max_mem"@,
            files_key@ == "max_files"@,
            fold_groups(LimitSet { procs, mem, files }, configs@, names@.skip(i as int))
                == fold_groups(unlimited(), configs@, names@),
        decreases n - i,
    {
        let ghost acc0 = LimitSet { procs, mem, files };
        proof {
            assert(names@.skip(i as int)[0] == names@[i as int]);
            assert(names@.skip(i as int).drop_first() =~= names@.skip(i + 1 as int));
            assert(fold_groups(acc0, configs@, names@.skip(i as int)) == fold_groups(
                unlimited(),
                configs@,
                names@,
            ));
        }
        let name = &names[i];
        let hit = find_group(configs, name);
        match hit {
            None => {
                return Err(LimitsError::UnknownGroup(name.clone()));
            },
            Some(g) => {
                let entries = &configs[g].1;
                proof {
                    assert(entries@.skip(0) =~= entries@);
                }
                let en = entries.len();
                let mut e: usize = 0;
                while e < en
                    invariant
                        en == entries@.len(),
                        0 <= e <= en,
                        0 <= g < configs@.len(),
                        entries@ == configs@[g as int].1@,
                        0 <= i < names@.len(),
                        name@ == names@[i as int]@,
                        lookup_group(configs@, name@) == Some(entries@),
                        fold_groups(acc0, configs@, names@.skip(i as int)) == fold_groups(
                            unlimited(),
                            configs@,
                            names@,
                        ),
                        mem_values_in_range(configs@),
                        procs_key@ == "max_procs"@,
                        mem_key@ == "max_mem"@,
                        files_key@ == "max_files"@,
                        fold_entries(LimitSet { procs, mem, files }, entries@.skip(e as int))
                            == fold_entries(acc0, entries@),
                    decreases en - e,
                {
                    proof {
                        assert(entries@.skip(e as int)[0] == entries@[e as int]);
                        assert(entries@.skip(e as int).drop_first() =~= entries@.skip(
                            e + 1 as int,
                        ));
                    }
                    let key = &entries[e].0;
                    let v = entries[e].1;
                    if *key == procs_key {
                        procs = min_limit_exec(procs, Limit::Num(v));
                    } else if *key == mem_key {
                        proof {
                            assert((#[trigger] configs@[g as int].1@[e as int]).0@ == "max_mem"@);
                            assert(v <= u64::MAX / MIB);
                        }
                        mem = min_limit_exec(mem, Limit::Num(v * MIB));
                    } else if *key == files_key {
                        files = min_limit_exec(files, Limit::Num(v));
                    } else {
                        proof {
                            assert(!valid_resource_key(entries@[e as int].0@));
                            assert(fold_entries(acc0, entries@) == Err::<LimitSet, LimitsError>(
                                LimitsError::UnknownResource(entries@[e as int].0),
                            ));
                            assert(fold_groups(acc0, configs@, names@.skip(i as int)) == Err::<
                                LimitSet,
                                LimitsError,
                            >(LimitsError::UnknownResource(entries@[e as int].0)));
                        }
                        return Err(LimitsError::UnknownResource(key.clone()));
                    }
                    e += 1;
                }
                proof {
                    assert(entries@.skip(en as int) =~= Seq::<(String, u64)>::empty());
                    assert(fold_entries(acc0, entries@) == Ok::<LimitSet, LimitsError>(
                        LimitSet { procs, mem, files },
                    ));
                }
            },
        }
        i += 1;
    }
    proof {
        assert(names@.skip(n as int) =~= Seq::<String>::empty());
    }
    Ok(vec![RLimit::Procs(procs), RLimit::Memory(mem), RLimit::Files(files)])
}

/// Index of the first group of `configs` named `name`, if any.
fn find_group(configs: &Vec<(String, Vec<(String, u64)>)>, name: &String) -> (r: Option<usize>)
    ensures
        match r {
            None => lookup_group(configs@, name@) is None,
            Some(g) => 0 <= g < configs@.len() && lookup_group(configs@, name@) == Some(
                configs@[g as int].1@,
            ),
        },
{
    proof {
        assert(configs@.skip(0) =~= configs@);
    }
    let gn = configs.len();
    let mut g: usize = 0;
    while g < gn
        invariant
            gn == configs@.len(),
            0 <= g <= gn,
            lookup_group(configs@, name@) == lookup_group(configs@.skip(g as int), name@),
        decreases gn - g,
    {
        proof {
            assert(configs@.skip(g as int)[0] == configs@[g as int]);
            assert(configs@.skip(g as int).drop_first() =~= configs@.skip(g + 1 as int));
        }
        if configs[g].0 == *name {
            return Some(g);
        }
        g += 1;
    }
    proof {
        assert(configs@.skip(gn as int) =~= Seq::<(String, Vec<(String, u64)>)>::empty());
    }
    None
}

/// The tighter of two bounds, as executable code.
fn min_limit_exec(a: Limit, b: Limit) -> (r: Limit)
    ensures
        r == min_limit(a, b),
{
    match (a, b) {
        (x, Limit::Infinity) => x,
        (Limit::Infinity, y) => y,
        (Limit::Num(x), Limit::Num(y)) => if x < y {
            Limit::Num(x)
        } else {
            Limit::Num(y)
        },
    }
}

} // verus!
