//! Exemptions from the cooldown: exact releases, per-package and global
//! minimum ages.
use vstd::prelude::*;

use crate::text::same_text;

verus! {

/// The allowlist document: everything sits under its `allow` table.
#[derive(Debug, Clone, Default)]
pub struct Allowlist {
    pub allow: AllowSection,
}

/// The three sections of the allowlist.
#[derive(Debug, Clone, Default)]
pub struct AllowSection {
    /// Releases exempt from the cooldown entirely.
    pub exact: Vec<AllowExact>,
    /// Per-package minimum ages.
    pub package: Vec<AllowPackage>,
    /// A minimum age that applies to every package.
    pub global: Option<AllowGlobal>,
}

/// One exempt release: a package name and a version.
#[derive(Debug, Clone)]
pub struct AllowExact {
    pub crate_name: String,
    pub version: String,
}

/// A minimum age for one package, under either of its two spellings.
#[derive(Debug, Clone)]
pub struct AllowPackage {
    pub crate_name: String,
    pub minimum_release_age: Option<u64>,
    pub minutes: Option<u64>,
}

/// A minimum age for every package, under either of its two spellings.
#[derive(Debug, Clone)]
pub struct AllowGlobal {
    pub minimum_release_age: Option<u64>,
    pub minutes: Option<u64>,
}

/// `minimum_release_age` wins over the legacy `minutes` when both are set.
pub open spec fn preferred_minutes(minimum_release_age: Option<u64>, minutes: Option<u64>) -> Option<u64> {
    if minimum_release_age is Some {
        minimum_release_age
    } else {
        minutes
    }
}

/// The smaller of two minute counts.
pub open spec fn min_minutes(a: u64, b: u64) -> u64 {
    if a <= b {
        a
    } else {
        b
    }
}

/// `base` lowered by an optional narrower bound.
pub open spec fn lower_by(base: u64, bound: Option<u64>) -> u64 {
    match bound {
        Some(m) => min_minutes(base, m),
        None => base,
    }
}

/// The effective minimum age: the smallest of the configured default, the
/// global allowlist value and the package's own value, where present.
pub open spec fn effective_minimum(default_minutes: u64, global: Option<u64>, package: Option<u64>) -> u64 {
    lower_by(lower_by(default_minutes, global), package)
}

impl AllowPackage {
    pub open spec fn spec_minutes(&self) -> Option<u64> {
        preferred_minutes(self.minimum_release_age, self.minutes)
    }

    /// The package's minimum age, preferring `minimum_release_age`.
    pub fn effective_minutes(&self) -> (r: Option<u64>)
        ensures
            r == self.spec_minutes(),
    {
        if self.minimum_release_age.is_some() {
            self.minimum_release_age
        } else {
            self.minutes
        }
    }
}

impl AllowGlobal {
    pub open spec fn spec_minutes(&self) -> Option<u64> {
        preferred_minutes(self.minimum_release_age, self.minutes)
    }

    /// The global minimum age, preferring `minimum_release_age`.
    pub fn effective_minutes(&self) -> (r: Option<u64>)
        ensures
            r == self.spec_minutes(),
    {
        if self.minimum_release_age.is_some() {
            self.minimum_release_age
        } else {
            self.minutes
        }
    }
}

/// The `(name, minutes)` pairs of the package rules that carry a value, in
/// the order in which they were written.
pub open spec fn rules_with_minutes(pkgs: Seq<AllowPackage>) -> Seq<(Seq<char>, u64)>
    decreases pkgs.len(),
{
    if pkgs.len() == 0 {
        Seq::empty()
    } else {
        let rest = rules_with_minutes(pkgs.drop_last());
        match pkgs.last().spec_minutes() {
            Some(m) => rest.push((pkgs.last().crate_name@, m)),
            None => rest,
        }
    }
}

/// The minutes of the first package rule named `name`, if it carries a value.
pub open spec fn rule_for(pkgs: Seq<AllowPackage>, name: Seq<char>) -> Option<u64>
    decreases pkgs.len(),
{
    if pkgs.len() == 0 {
        None
    } else if pkgs[0].crate_name@ == name {
        pkgs[0].spec_minutes()
    } else {
        rule_for(pkgs.drop_first(), name)
    }
}

impl Allowlist {
    pub open spec fn spec_exact_allowed(&self, name: Seq<char>, version: Seq<char>) -> bool {
        exists|i: int|
            0 <= i < self.allow.exact@.len() && #[trigger] self.allow.exact@[i].crate_name@ == name
                && self.allow.exact@[i].version@ == version
    }

    pub open spec fn spec_global_minutes(&self) -> Option<u64> {
        match self.allow.global {
            Some(g) => g.spec_minutes(),
            None => None,
        }
    }

    pub open spec fn spec_package_minutes(&self, name: Seq<char>) -> Option<u64> {
        rule_for(self.allow.package@, name)
    }

    /// The minimum age for package `name` when the configured default is
    /// `default_minutes`.
    pub open spec fn spec_minutes_for(&self, name: Seq<char>, default_minutes: u64) -> u64 {
        effective_minimum(default_minutes, self.spec_global_minutes(), self.spec_package_minutes(name))
    }

    /// Whether this exact release is exempt from the cooldown.
    pub fn is_exact_allowed(&self, name: &str, version: &str) -> (r: bool)
        ensures
            r == self.spec_exact_allowed(name@, version@),
    {
        let n = self.allow.exact.len();
        let mut i: usize = 0;
        while i < n
            invariant
                n == self.allow.exact@.len(),
                i <= n,
                forall|j: int|
                    0 <= j < i ==> !(#[trigger] self.allow.exact@[j].crate_name@ == name@
                        && self.allow.exact@[j].version@ == version@),
            decreases n - i,
        {
            let entry = &self.allow.exact[i];
            if same_text(entry.crate_name.as_str(), name) && same_text(entry.version.as_str(), version) {
                return true;
            }
            i = i + 1;
        }
        false
    }

    /// The package rules that carry a value, as `(name, minutes)` pairs.
    pub fn per_crate_minutes(&self) -> (r: Vec<(String, u64)>)
        ensures
            r@.map_values(|p: (String, u64)| (p.0@, p.1)) == rules_with_minutes(self.allow.package@),
    {
        let pkgs = &self.allow.package;
        let mut out: Vec<(String, u64)> = Vec::new();
        let mut i: usize = 0;
        while i < pkgs.len()
            invariant
                i <= pkgs@.len(),
                out@.map_values(|p: (String, u64)| (p.0@, p.1)) == rules_with_minutes(
                    pkgs@.subrange(0, i as int),
                ),
            decreases pkgs@.len() - i,
        {
            let pkg = &pkgs[i];
            assert(pkgs@.subrange(0, i + 1).drop_last() =~= pkgs@.subrange(0, i as int));
            match pkg.effective_minutes() {
                Some(m) => {
                    out.push((pkg.crate_name.clone(), m));
                    assert(out@.map_values(|p: (String, u64)| (p.0@, p.1)) =~= rules_with_minutes(
                        pkgs@.subrange(0, i + 1),
                    ));
                },
                None => {},
            }
            i = i + 1;
        }
        assert(pkgs@.subrange(0, pkgs@.len() as int) =~= pkgs@);
        out
    }

    /// The global minimum age, if the allowlist sets one.
    pub fn global_minutes(&self) -> (r: Option<u64>)
        ensures
            r == self.spec_global_minutes(),
    {
        match &self.allow.global {
            Some(g) => g.effective_minutes(),
            None => None,
        }
    }

    /// The minutes of the first package rule named `name`, if it carries one.
    pub fn package_minutes(&self, name: &str) -> (r: Option<u64>)
        ensures
            r == self.spec_package_minutes(name@),
    {
        let pkgs = &self.allow.package;
        let mut i: usize = 0;
        assert(pkgs@.subrange(0, pkgs@.len() as int) =~= pkgs@);
        while i < pkgs.len()
            invariant
                pkgs == &self.allow.package,
                i <= pkgs@.len(),
                rule_for(pkgs@, name@) == rule_for(pkgs@.subrange(i as int, pkgs@.len() as int), name@),
            decreases pkgs@.len() - i,
        {
            let ghost sub = pkgs@.subrange(i as int, pkgs@.len() as int);
            if same_text(pkgs[i].crate_name.as_str(), name) {
                assert(sub[0] == pkgs@[i as int]);
                assert(rule_for(sub, name@) == sub[0].spec_minutes());
                let m = pkgs[i].effective_minutes();
                return m;
            }
            assert(sub.drop_first() =~= pkgs@.subrange(i + 1, pkgs@.len() as int));
            i = i + 1;
        }
        None
    }

    /// The effective minimum age for package `name`: the smallest of
    /// `default_minutes`, the global value and the package's own value.
    pub fn effective_minutes_for(&self, name: &str, default_minutes: u64) -> (r: u64)
        ensures
            r == self.spec_minutes_for(name@, default_minutes),
            r <= default_minutes,
    {
        let mut effective = default_minutes;
        if let Some(global) = self.global_minutes() {
            if global < effective {
                effective = global;
            }
        }
        if let Some(minutes) = self.package_minutes(name) {
            if minutes < effective {
                effective = minutes;
            }
        }
        effective
    }
}

} // verus!
