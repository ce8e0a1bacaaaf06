//! Settings, layered from the environment, a workspace file, a file in the
//! user's home and built-in defaults.
use vstd::prelude::*;

use crate::text::{
    chars_of, has_prefix_at, opt_view, same_text, split_on, split_text, trim, trim_bounds, views,
};

verus! {

/// The public registry's git index, as Cargo names its source.
pub const DEFAULT_REGISTRY_INDEX: &'static str = "registry+https://github.com/rust-lang/crates.io-index";

/// The public registry's sparse index, as Cargo names its source.
pub const DEFAULT_SPARSE_REGISTRY_INDEX: &'static str = "registry+sparse+https://index.crates.io/";

/// The prefix that every registry source identifier carries.
pub const REGISTRY_PREFIX: &'static str = "registry+";

/// The registry API that is queried when none is configured.
pub const DEFAULT_REGISTRY_API: &'static str = "https://crates.io/api/v1/";

/// Minimum age when nothing sets one: no cooldown.
pub const DEFAULT_COOLDOWN_MINUTES: u64 = 0;

/// How long a cached registry answer stays valid when nothing sets it.
pub const DEFAULT_TTL_SECONDS: u64 = 86400;

/// Retries of a failed registry request when nothing sets it.
pub const DEFAULT_HTTP_RETRIES: u32 = 2;

/// The largest number of retries that a setting may ask for.
pub const MAX_HTTP_RETRIES: u32 = 8;

/// What happens when the cooldown cannot be enforced.
#[derive(Debug, Clone, Copy, PartialEq, Eq, Structural)]
pub enum Mode {
    /// A failure of the engine fails the run.
    Enforce,
    /// A failure of the engine is reported and the build goes on.
    Warn,
    /// The engine does not run.
    Off,
}

pub open spec fn mode_of(value: Option<Seq<char>>) -> Mode {
    match value {
        Some(v) => if v == "warn"@ {
            Mode::Warn
        } else if v == "off"@ {
            Mode::Off
        } else {
            Mode::Enforce
        },
        None => Mode::Enforce,
    }
}

impl Mode {
    /// `warn` and `off` select those modes; anything else enforces.
    pub fn from_env(value: Option<String>) -> (r: Mode)
        ensures
            r == mode_of(opt_view(value)),
    {
        match value {
            Some(v) => {
                if same_text(v.as_str(), "warn") {
                    Mode::Warn
                } else if same_text(v.as_str(), "off") {
                    Mode::Off
                } else {
                    Mode::Enforce
                }
            },
            None => Mode::Enforce,
        }
    }
}

/// `c` is `lower` or its upper-case form `upper`.
pub open spec fn either_case(c: char, lower: char, upper: char) -> bool {
    c == lower || c == upper
}

/// A boolean setting is on for `1` or for `true` in any letter case.
pub open spec fn bool_of(v: Seq<char>) -> bool {
    ||| (v.len() == 1 && v[0] == '1')
    ||| (v.len() == 4 && either_case(v[0], 't', 'T') && either_case(v[1], 'r', 'R')
        && either_case(v[2], 'u', 'U') && either_case(v[3], 'e', 'E'))
}

/// Reads a boolean setting: `1` or `true` (any letter case) is on.
pub fn parse_bool(value: &str) -> (r: bool)
    ensures
        r == bool_of(value@),
{
    let cs = chars_of(value);
    if cs.len() == 1 {
        cs[0] == '1'
    } else if cs.len() == 4 {
        (cs[0] == 't' || cs[0] == 'T') && (cs[1] == 'r' || cs[1] == 'R') && (cs[2] == 'u' || cs[2]
            == 'U') && (cs[3] == 'e' || cs[3] == 'E')
    } else {
        false
    }
}

/// A registry source identifier with its `registry+` prefix: a blank entry
/// stands for the public git index.
pub open spec fn normalized_index(raw: Seq<char>) -> Seq<char> {
    let t = trim(raw);
    if t.len() == 0 {
        DEFAULT_REGISTRY_INDEX@
    } else if t.len() >= REGISTRY_PREFIX@.len() && t.subrange(0, REGISTRY_PREFIX@.len() as int)
        == REGISTRY_PREFIX@ {
        t
    } else {
        REGISTRY_PREFIX@ + t
    }
}

/// The normalized identifiers of the pieces that are not blank, in order.
pub open spec fn normalized_pieces(pieces: Seq<Seq<char>>) -> Seq<Seq<char>>
    decreases pieces.len(),
{
    if pieces.len() == 0 {
        Seq::empty()
    } else {
        let rest = normalized_pieces(pieces.drop_last());
        if trim(pieces.last()).len() == 0 {
            rest
        } else {
            rest.push(normalized_index(pieces.last()))
        }
    }
}

/// A comma-separated list of registry source identifiers.
pub open spec fn registry_list(raw: Seq<char>) -> Seq<Seq<char>> {
    normalized_pieces(split_on(raw, seq![',']))
}

pub open spec fn default_registries() -> Seq<Seq<char>> {
    seq![DEFAULT_REGISTRY_INDEX@, DEFAULT_SPARSE_REGISTRY_INDEX@]
}

/// The allowed registries for a configured list, or the two public
/// indexes where nothing, or nothing but blanks, is configured.
pub open spec fn registries_for(value: Option<Seq<char>>) -> Seq<Seq<char>> {
    match value {
        Some(v) => if registry_list(v).len() == 0 {
            default_registries()
        } else {
            registry_list(v)
        },
        None => default_registries(),
    }
}

/// Gives a registry source identifier its `registry+` prefix, after
/// trimming; a blank entry stands for the public git index.
pub fn normalize_registry_index(raw: &str) -> (r: String)
    ensures
        r@ == normalized_index(raw@),
{
    let cs = chars_of(raw);
    let (lo, hi) = trim_bounds(&cs);
    if lo == hi {
        return DEFAULT_REGISTRY_INDEX.to_owned();
    }
    let trimmed = raw.substring_char(lo, hi);
    let prefix = chars_of(REGISTRY_PREFIX);
    if has_prefix_at(&cs, lo, hi, &prefix) {
        assert(cs@.subrange(lo as int, hi as int).subrange(0, prefix@.len() as int)
            =~= cs@.subrange(lo as int, lo + prefix@.len()));
        trimmed.to_owned()
    } else {
        assert(!(cs@.subrange(lo as int, hi as int).subrange(0, prefix@.len() as int)
            == cs@.subrange(lo as int, lo + prefix@.len())) ==> hi - lo < prefix@.len()) by {
            if hi - lo >= prefix@.len() {
                assert(cs@.subrange(lo as int, hi as int).subrange(0, prefix@.len() as int)
                    =~= cs@.subrange(lo as int, lo + prefix@.len()));
            }
        }
        let mut out = REGISTRY_PREFIX.to_owned();
        out.append(trimmed);
        out
    }
}

/// Reads a comma-separated list of registry source identifiers: blank
/// entries are dropped and the others normalized.
pub fn parse_registry_list(raw: &str) -> (r: Vec<String>)
    ensures
        views(r@) == registry_list(raw@),
{
    let seps: Vec<char> = vec![','];
    let pieces = split_text(raw, &seps);
    let ghost pv = views(pieces@);
    assert(seps@ =~= seq![',']);
    let mut out: Vec<String> = Vec::new();
    let mut i: usize = 0;
    while i < pieces.len()
        invariant
            pv == views(pieces@),
            pv == split_on(raw@, seq![',']),
            i <= pieces@.len(),
            views(out@) == normalized_pieces(pv.subrange(0, i as int)),
        decreases pieces@.len() - i,
    {
        let piece = pieces[i].as_str();
        let pc = chars_of(piece);
        let (lo, hi) = trim_bounds(&pc);
        assert(pv.subrange(0, i + 1).drop_last() =~= pv.subrange(0, i as int));
        assert(pv.subrange(0, i + 1).last() == piece@);
        if lo < hi {
            let n = normalize_registry_index(piece);
            out.push(n);
            assert(views(out@) =~= normalized_pieces(pv.subrange(0, i + 1)));
        } else {
            assert(views(out@) =~= normalized_pieces(pv.subrange(0, i + 1)));
        }
        i = i + 1;
    }
    assert(pv.subrange(0, pieces@.len() as int) =~= pv);
    out
}

/// The public registry's two source identifiers, git and sparse.
pub fn default_allowed_registries() -> (r: Vec<String>)
    ensures
        views(r@) == default_registries(),
{
    let r = vec![DEFAULT_REGISTRY_INDEX.to_owned(), DEFAULT_SPARSE_REGISTRY_INDEX.to_owned()];
    assert(views(r@) =~= default_registries());
    r
}

/// `s` begins with `registry+`.
pub open spec fn has_registry_prefix(s: Seq<char>) -> bool {
    s.len() >= REGISTRY_PREFIX@.len() && s.subrange(0, REGISTRY_PREFIX@.len() as int) == REGISTRY_PREFIX@
}

proof fn lemma_defaults_prefixed()
    ensures
        has_registry_prefix(DEFAULT_REGISTRY_INDEX@),
        has_registry_prefix(DEFAULT_SPARSE_REGISTRY_INDEX@),
        REGISTRY_PREFIX@.len() == 9,
{
    reveal_strlit("registry+");
    reveal_strlit("registry+https://github.com/rust-lang/crates.io-index");
    reveal_strlit("registry+sparse+https://index.crates.io/");
    assert(DEFAULT_REGISTRY_INDEX@.subrange(0, 9) =~= REGISTRY_PREFIX@);
    assert(DEFAULT_SPARSE_REGISTRY_INDEX@.subrange(0, 9) =~= REGISTRY_PREFIX@);
}

proof fn lemma_normalized_prefixed(raw: Seq<char>)
    ensures
        has_registry_prefix(normalized_index(raw)),
{
    lemma_defaults_prefixed();
    let t = trim(raw);
    if t.len() != 0 && !(t.len() >= REGISTRY_PREFIX@.len() && t.subrange(0, REGISTRY_PREFIX@.len() as int)
        == REGISTRY_PREFIX@) {
        assert((REGISTRY_PREFIX@ + t).subrange(0, REGISTRY_PREFIX@.len() as int) =~= REGISTRY_PREFIX@);
    }
}

proof fn lemma_pieces_prefixed(pieces: Seq<Seq<char>>)
    ensures
        forall|i: int|
            0 <= i < normalized_pieces(pieces).len() ==> has_registry_prefix(
                #[trigger] normalized_pieces(pieces)[i],
            ),
    decreases pieces.len(),
{
    if pieces.len() > 0 {
        let rest = normalized_pieces(pieces.drop_last());
        lemma_pieces_prefixed(pieces.drop_last());
        lemma_normalized_prefixed(pieces.last());
        assert forall|i: int| 0 <= i < normalized_pieces(pieces).len() implies has_registry_prefix(
            #[trigger] normalized_pieces(pieces)[i],
        ) by {
            if i < rest.len() {
                assert(normalized_pieces(pieces)[i] == rest[i]);
            }
        }
    }
}

/// Every allowed registry carries the `registry+` prefix, and where no list,
/// or only a blank one, is configured, the allowed set is the public
/// registry's two indexes.
pub proof fn lemma_registries_normalized(value: Option<Seq<char>>)
    ensures
        forall|i: int|
            0 <= i < registries_for(value).len() ==> has_registry_prefix(
                #[trigger] registries_for(value)[i],
            ),
        value is None ==> registries_for(value) == default_registries(),
        (value is Some && registry_list(value->0).len() == 0) ==> registries_for(value)
            == default_registries(),
        default_registries().len() == 2,
{
    lemma_defaults_prefixed();
    if let Some(v) = value {
        lemma_pieces_prefixed(split_on(v, seq![',']));
    }
}

/// The settings of one source: the environment, or one configuration file.
/// A field is `None` where that source does not set it.
#[derive(Debug, Clone, Default)]
pub struct ConfigLayer {
    pub cooldown_minutes: Option<u64>,
    pub mode: Option<String>,
    pub ttl_seconds: Option<u64>,
    pub allowlist_path: Option<String>,
    pub cache_dir: Option<String>,
    pub offline_ok: Option<bool>,
    pub http_retries: Option<u32>,
    pub verbose: Option<bool>,
    pub registry_api: Option<String>,
    pub registry_index: Option<String>,
}

/// The resolved settings.
#[derive(Debug, Clone)]
pub struct Config {
    pub cooldown_minutes: u64,
    pub mode: Mode,
    pub ttl_seconds: u64,
    pub allowlist_path: Option<String>,
    pub cache_dir: Option<String>,
    pub offline_ok: bool,
    pub http_retries: u32,
    pub verbose: bool,
    pub registry_api: String,
    pub allowed_registries: Vec<String>,
}

/// The value of the highest-priority source that sets it.
pub open spec fn first_set<T>(a: Option<T>, b: Option<T>, c: Option<T>) -> Option<T> {
    if a is Some {
        a
    } else if b is Some {
        b
    } else {
        c
    }
}

pub open spec fn or_default<T>(o: Option<T>, d: T) -> T {
    match o {
        Some(v) => v,
        None => d,
    }
}

/// A retry count that is out of range counts as unset.
pub open spec fn retries_in_range(o: Option<u32>) -> Option<u32> {
    match o {
        Some(v) => if v <= MAX_HTTP_RETRIES {
            Some(v)
        } else {
            None
        },
        None => None,
    }
}

/// An empty path counts as no path.
pub open spec fn nonempty_path(o: Option<Seq<char>>) -> Option<Seq<char>> {
    match o {
        Some(p) => if p.len() == 0 {
            None
        } else {
            Some(p)
        },
        None => None,
    }
}

fn pick<T>(a: Option<T>, b: Option<T>, c: Option<T>) -> (r: Option<T>)
    ensures
        r == first_set(a, b, c),
{
    if a.is_some() {
        a
    } else if b.is_some() {
        b
    } else {
        c
    }
}

fn bounded_retries(o: Option<u32>) -> (r: Option<u32>)
    ensures
        r == retries_in_range(o),
{
    match o {
        Some(v) => if v <= MAX_HTTP_RETRIES {
            Some(v)
        } else {
            None
        },
        None => None,
    }
}

fn drop_empty_path(o: Option<String>) -> (r: Option<String>)
    ensures
        opt_view(r) == nonempty_path(opt_view(o)),
{
    match o {
        Some(p) => if p.as_str().unicode_len() == 0 {
            None
        } else {
            Some(p)
        },
        None => None,
    }
}

impl Config {
    /// Whether the settings hold what `from_layers` makes of these sources.
    pub open spec fn resolved_from(&self, env: ConfigLayer, workspace: ConfigLayer, home: ConfigLayer) -> bool {
        &&& self.cooldown_minutes == or_default(
            first_set(env.cooldown_minutes, workspace.cooldown_minutes, home.cooldown_minutes),
            DEFAULT_COOLDOWN_MINUTES,
        )
        &&& self.mode == mode_of(opt_view(first_set(env.mode, workspace.mode, home.mode)))
        &&& self.ttl_seconds == or_default(
            first_set(env.ttl_seconds, workspace.ttl_seconds, home.ttl_seconds),
            DEFAULT_TTL_SECONDS,
        )
        &&& opt_view(self.allowlist_path) == nonempty_path(
            opt_view(first_set(env.allowlist_path, workspace.allowlist_path, home.allowlist_path)),
        )
        &&& opt_view(self.cache_dir) == nonempty_path(
            opt_view(first_set(env.cache_dir, workspace.cache_dir, home.cache_dir)),
        )
        &&& self.offline_ok == or_default(
            first_set(env.offline_ok, workspace.offline_ok, home.offline_ok),
            false,
        )
        &&& self.http_retries == or_default(
            first_set(
                retries_in_range(env.http_retries),
                retries_in_range(workspace.http_retries),
                retries_in_range(home.http_retries),
            ),
            DEFAULT_HTTP_RETRIES,
        )
        &&& self.verbose == or_default(first_set(env.verbose, workspace.verbose, home.verbose), false)
        &&& self.registry_api@ == or_default(
            opt_view(first_set(env.registry_api, workspace.registry_api, home.registry_api)),
            DEFAULT_REGISTRY_API@,
        )
        &&& views(self.allowed_registries@) == registries_for(
            opt_view(first_set(env.registry_index, workspace.registry_index, home.registry_index)),
        )
    }

    /// Resolves every setting from the highest-priority source that sets it:
    /// the environment, then the workspace file, then the file in the user's
    /// home, then the built-in default.
    pub fn from_layers(env: &ConfigLayer, workspace: &ConfigLayer, home: &ConfigLayer) -> (r: Config)
        ensures
            r.resolved_from(*env, *workspace, *home),
            r.http_retries <= MAX_HTTP_RETRIES,
            forall|i: int|
                0 <= i < r.allowed_registries@.len() ==> has_registry_prefix(
                    #[trigger] r.allowed_registries@[i]@,
                ),
    {
        let cooldown_minutes = match pick(env.cooldown_minutes, workspace.cooldown_minutes, home.cooldown_minutes) {
            Some(v) => v,
            None => DEFAULT_COOLDOWN_MINUTES,
        };
        let mode = Mode::from_env(pick(env.mode.clone(), workspace.mode.clone(), home.mode.clone()));
        let ttl_seconds = match pick(env.ttl_seconds, workspace.ttl_seconds, home.ttl_seconds) {
            Some(v) => v,
            None => DEFAULT_TTL_SECONDS,
        };
        let allowlist_path = drop_empty_path(
            pick(env.allowlist_path.clone(), workspace.allowlist_path.clone(), home.allowlist_path.clone()),
        );
        let cache_dir = drop_empty_path(
            pick(env.cache_dir.clone(), workspace.cache_dir.clone(), home.cache_dir.clone()),
        );
        let offline_ok = match pick(env.offline_ok, workspace.offline_ok, home.offline_ok) {
            Some(v) => v,
            None => false,
        };
        let http_retries = match pick(
            bounded_retries(env.http_retries),
            bounded_retries(workspace.http_retries),
            bounded_retries(home.http_retries),
        ) {
            Some(v) => v,
            None => DEFAULT_HTTP_RETRIES,
        };
        let verbose = match pick(env.verbose, workspace.verbose, home.verbose) {
            Some(v) => v,
            None => false,
        };
        let registry_api = match pick(env.registry_api.clone(), workspace.registry_api.clone(), home.registry_api.clone()) {
            Some(v) => v,
            None => DEFAULT_REGISTRY_API.to_owned(),
        };
        let index = pick(env.registry_index.clone(), workspace.registry_index.clone(), home.registry_index.clone());
        let allowed_registries = match index {
            Some(v) => {
                let list = parse_registry_list(v.as_str());
                if list.len() == 0 {
                    default_allowed_registries()
                } else {
                    list
                }
            },
            None => default_allowed_registries(),
        };
        proof {
            let value = opt_view(first_set(env.registry_index, workspace.registry_index, home.registry_index));
            lemma_registries_normalized(value);
            assert(views(allowed_registries@) == registries_for(value));
            assert forall|i: int| 0 <= i < allowed_registries@.len() implies has_registry_prefix(
                #[trigger] allowed_registries@[i]@,
            ) by {
                assert(views(allowed_registries@)[i] == allowed_registries@[i]@);
                assert(has_registry_prefix(registries_for(value)[i]));
            }
        }
        Config {
            cooldown_minutes,
            mode,
            ttl_seconds,
            allowlist_path,
            cache_dir,
            offline_ok,
            http_retries,
            verbose,
            registry_api,
            allowed_registries,
        }
    }

    pub open spec fn spec_registry_allowed(&self, source: Seq<char>) -> bool {
        exists|i: int| 0 <= i < self.allowed_registries@.len() && #[trigger] self.allowed_registries@[i]@ == source
    }

    /// Whether a registry source identifier is among the allowed ones,
    /// compared as plain text.
    pub fn is_registry_allowed(&self, source: &str) -> (r: bool)
        ensures
            r == self.spec_registry_allowed(source@),
    {
        let n = self.allowed_registries.len();
        let mut i: usize = 0;
        while i < n
            invariant
                n == self.allowed_registries@.len(),
                i <= n,
                forall|j: int| 0 <= j < i ==> #[trigger] self.allowed_registries@[j]@ != source@,
            decreases n - i,
        {
            if same_text(self.allowed_registries[i].as_str(), source) {
                return true;
            }
            i = i + 1;
        }
        false
    }
}

} // verus!
