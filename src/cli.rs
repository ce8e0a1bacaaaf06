//! The Cargo command that runs once the cooldown is enforced, and the
//! decisions taken around the engine.
use vstd::prelude::*;

use crate::config::{Config, Mode};
use crate::text::{same_text, split_on, split_text, views};

verus! {

/// The selectors and arguments of an invocation, as the command line gave
/// them. `cargo_args` holds the Cargo subcommand and what follows it.
#[derive(Debug, Clone, Default)]
pub struct CargoInvocation {
    pub cargo_args: Vec<String>,
    pub manifest_path: Option<String>,
    pub packages: Vec<String>,
    pub workspace: bool,
    pub all: bool,
    pub exclude: Vec<String>,
    pub all_features: bool,
    pub no_default_features: bool,
    pub features: Vec<String>,
}

/// The non-empty pieces of `s` between separators.
pub open spec fn nonempty_pieces(pieces: Seq<Seq<char>>) -> Seq<Seq<char>>
    decreases pieces.len(),
{
    if pieces.len() == 0 {
        Seq::empty()
    } else {
        let prev = nonempty_pieces(pieces.drop_last());
        if pieces.last().len() == 0 {
            prev
        } else {
            prev.push(pieces.last())
        }
    }
}

/// The feature names in one `--features` value: separated by spaces or
/// commas, blanks dropped.
pub open spec fn feature_names(raw: Seq<char>) -> Seq<Seq<char>> {
    nonempty_pieces(split_on(raw, seq![' ', ',']))
}

/// Splits one `--features` value into feature names.
pub fn split_features(raw: &str) -> (r: Vec<String>)
    ensures
        views(r@) == feature_names(raw@),
{
    let seps: Vec<char> = vec![' ', ','];
    assert(seps@ =~= seq![' ', ',']);
    let pieces = split_text(raw, &seps);
    let ghost pv = views(pieces@);
    let mut out: Vec<String> = Vec::new();
    let mut i: usize = 0;
    while i < pieces.len()
        invariant
            pv == views(pieces@),
            pv == split_on(raw@, seq![' ', ',']),
            i <= pieces@.len(),
            views(out@) == nonempty_pieces(pv.subrange(0, i as int)),
        decreases pieces@.len() - i,
    {
        assert(pv.subrange(0, i + 1).drop_last() =~= pv.subrange(0, i as int));
        assert(pv.subrange(0, i + 1).last() == pieces@[i as int]@);
        if pieces[i].as_str().unicode_len() > 0 {
            out.push(pieces[i].clone());
            assert(views(out@) =~= nonempty_pieces(pv.subrange(0, i + 1)));
        }
        i = i + 1;
    }
    assert(pv.subrange(0, pieces@.len() as int) =~= pv);
    out
}

/// The pieces joined by commas.
pub open spec fn comma_joined(pieces: Seq<Seq<char>>) -> Seq<char>
    decreases pieces.len(),
{
    if pieces.len() == 0 {
        Seq::empty()
    } else if pieces.len() == 1 {
        pieces[0]
    } else {
        comma_joined(pieces.drop_last()) + seq![','] + pieces.last()
    }
}

/// Every feature name of every `--features` value, in order.
pub open spec fn all_feature_names(values: Seq<Seq<char>>) -> Seq<Seq<char>>
    decreases values.len(),
{
    if values.len() == 0 {
        Seq::empty()
    } else {
        all_feature_names(values.drop_last()) + feature_names(values.last())
    }
}

/// Each value behind its flag.
pub open spec fn flagged(flag: Seq<char>, values: Seq<Seq<char>>) -> Seq<Seq<char>>
    decreases values.len(),
{
    if values.len() == 0 {
        Seq::empty()
    } else {
        flagged(flag, values.drop_last()) + seq![flag, values.last()]
    }
}

pub open spec fn flag_if(on: bool, flag: Seq<char>) -> Seq<Seq<char>> {
    if on {
        seq![flag]
    } else {
        Seq::empty()
    }
}

/// The arguments handed to Cargo: the subcommand first, then the
/// selectors in the order Cargo expects, then the rest of the arguments.
pub open spec fn assembled(inv: CargoInvocation) -> Seq<Seq<char>> {
    let args = views(inv.cargo_args@);
    let features = all_feature_names(views(inv.features@));
    seq![args[0]] + match inv.manifest_path {
        Some(p) => seq!["--manifest-path"@, p@],
        None => Seq::empty(),
    } + flagged("--package"@, views(inv.packages@)) + flag_if(inv.workspace, "--workspace"@) + flag_if(
        inv.all,
        "--all"@,
    ) + flagged("--exclude"@, views(inv.exclude@)) + flag_if(inv.all_features, "--all-features"@)
        + flag_if(inv.no_default_features, "--no-default-features"@) + (if inv.features@.len() == 0 {
        Seq::empty()
    } else {
        seq!["--features"@, comma_joined(features)]
    }) + args.drop_first()
}

fn push_flagged(out: &mut Vec<String>, flag: &str, values: &Vec<String>)
    ensures
        views(final(out)@) == views(old(out)@) + flagged(flag@, views(values@)),
{
    let ghost start = views(out@);
    let ghost vv = views(values@);
    let mut i: usize = 0;
    while i < values.len()
        invariant
            vv == views(values@),
            i <= values@.len(),
            views(out@) == start + flagged(flag@, vv.subrange(0, i as int)),
        decreases values@.len() - i,
    {
        assert(vv.subrange(0, i + 1).drop_last() =~= vv.subrange(0, i as int));
        let ghost before = views(out@);
        out.push(flag.to_owned());
        out.push(values[i].clone());
        assert(vv.subrange(0, i + 1).last() == vv[i as int]);
        assert(views(out@) =~= before + seq![flag@, vv[i as int]]);
        assert(views(out@) =~= start + flagged(flag@, vv.subrange(0, i + 1)));
        i = i + 1;
    }
    assert(vv.subrange(0, values@.len() as int) =~= vv);
}

fn push_if(out: &mut Vec<String>, on: bool, flag: &str)
    ensures
        views(final(out)@) == views(old(out)@) + flag_if(on, flag@),
{
    if on {
        out.push(flag.to_owned());
        assert(views(out@) =~= views(old(out)@) + flag_if(on, flag@));
    } else {
        assert(views(out@) =~= views(old(out)@) + flag_if(on, flag@));
    }
}

/// The feature names of every value, joined by commas.
fn joined_features(values: &Vec<String>) -> (r: String)
    ensures
        r@ == comma_joined(all_feature_names(views(values@))),
{
    let ghost vv = views(values@);
    let mut names: Vec<String> = Vec::new();
    let mut i: usize = 0;
    while i < values.len()
        invariant
            vv == views(values@),
            i <= values@.len(),
            views(names@) == all_feature_names(vv.subrange(0, i as int)),
        decreases values@.len() - i,
    {
        assert(vv.subrange(0, i + 1).drop_last() =~= vv.subrange(0, i as int));
        let mut more = split_features(values[i].as_str());
        let ghost before = names@;
        names.append(&mut more);
        assert(views(names@) =~= views(before) + feature_names(vv[i as int]));
        i = i + 1;
    }
    assert(vv.subrange(0, values@.len() as int) =~= vv);
    let ghost nv = views(names@);
    let mut out = String::new();
    let mut k: usize = 0;
    while k < names.len()
        invariant
            nv == views(names@),
            k <= names@.len(),
            out@ == comma_joined(nv.subrange(0, k as int)),
        decreases names@.len() - k,
    {
        assert(nv.subrange(0, k + 1).drop_last() =~= nv.subrange(0, k as int));
        if k > 0 {
            out.append(",");
            proof {
                reveal_strlit(",");
            }
        }
        out.append(names[k].as_str());
        proof {
            if k == 0 {
                assert(out@ =~= comma_joined(nv.subrange(0, 1)));
            } else {
                assert(out@ =~= comma_joined(nv.subrange(0, k + 1)));
            }
        }
        k = k + 1;
    }
    assert(nv.subrange(0, names@.len() as int) =~= nv);
    out
}

/// The arguments for Cargo: the subcommand leads, the selectors follow in
/// the order Cargo expects (`--manifest-path`, `--package`, `--workspace`,
/// `--all`, `--exclude`, the feature flags, with every `--features` value
/// merged into one comma-separated list), then the remaining arguments.
pub fn assemble_cargo_args(inv: &CargoInvocation) -> (r: Vec<String>)
    requires
        inv.cargo_args@.len() > 0,
    ensures
        views(r@) == assembled(*inv),
{
    let mut args: Vec<String> = Vec::new();
    args.push(inv.cargo_args[0].clone());
    let ghost a0 = views(args@);
    match &inv.manifest_path {
        Some(p) => {
            args.push("--manifest-path".to_owned());
            args.push(p.clone());
        },
        None => {},
    }
    let ghost a1 = views(args@);
    push_flagged(&mut args, "--package", &inv.packages);
    push_if(&mut args, inv.workspace, "--workspace");
    push_if(&mut args, inv.all, "--all");
    push_flagged(&mut args, "--exclude", &inv.exclude);
    push_if(&mut args, inv.all_features, "--all-features");
    push_if(&mut args, inv.no_default_features, "--no-default-features");
    let ghost a2 = views(args@);
    if inv.features.len() > 0 {
        args.push("--features".to_owned());
        args.push(joined_features(&inv.features));
    }
    let ghost a3 = views(args@);
    let mut i: usize = 1;
    let ghost rest = views(inv.cargo_args@);
    while i < inv.cargo_args.len()
        invariant
            rest == views(inv.cargo_args@),
            1 <= i <= inv.cargo_args@.len(),
            views(args@) == a3 + rest.subrange(1, i as int),
        decreases inv.cargo_args@.len() - i,
    {
        let ghost before = views(args@);
        args.push(inv.cargo_args[i].clone());
        assert(views(args@) =~= before.push(rest[i as int]));
        assert(rest.subrange(1, i + 1) =~= rest.subrange(1, i as int).push(rest[i as int]));
        assert(views(args@) =~= a3 + rest.subrange(1, i + 1));
        i = i + 1;
    }
    proof {
        assert(rest.subrange(1, rest.len() as int) =~= rest.drop_first());
        assert(a0 =~= seq![rest[0]]);
        assert(a1 =~= a0 + match inv.manifest_path {
            Some(p) => seq!["--manifest-path"@, p@],
            None => Seq::<Seq<char>>::empty(),
        });
        assert(a3 =~= a2 + (if inv.features@.len() == 0 {
            Seq::<Seq<char>>::empty()
        } else {
            seq!["--features"@, comma_joined(all_feature_names(views(inv.features@)))]
        }));
        assert(views(args@) =~= assembled(*inv));
    }
    args
}

/// Whether the forwarded command is `update`, which would undo the
/// cooldown by resolving the lockfile again.
pub fn refuses_update(cargo_args: &Vec<String>) -> (r: bool)
    ensures
        r == (cargo_args@.len() > 0 && cargo_args@[0]@ == "update"@),
{
    cargo_args.len() > 0 && same_text(cargo_args[0].as_str(), "update")
}

/// Whether the engine runs: not in `Off` mode, and with a cooldown above
/// zero minutes.
pub fn engine_enabled(config: &Config) -> (r: bool)
    ensures
        r == (config.mode != Mode::Off && config.cooldown_minutes > 0),
{
    config.mode != Mode::Off && config.cooldown_minutes > 0
}

/// Whether a failure of the engine fails the run: only in `Enforce` mode;
/// `Warn` reports it and goes on with the lockfile as it stands.
pub fn failure_is_fatal(mode: Mode) -> (r: bool)
    ensures
        r == (mode == Mode::Enforce),
{
    mode == Mode::Enforce
}

} // verus!
