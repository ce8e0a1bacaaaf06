//! Choosing replacement releases, and reading the resolver's answers.
use vstd::prelude::*;

use crate::registry::VersionMeta;
use crate::text::{
    chars_of, has_prefix_at, opt_view, skip_space, skip_space_back, split_on, split_text, trim_bounds,
    views,
};

verus! {

/// Microseconds in one minute.
pub const MICROS_PER_MINUTE: i128 = 60_000_000;

/// A release that may replace a fresh one.
#[derive(Debug, Clone)]
pub struct Candidate {
    pub version: String,
    pub created_at: i64,
}

/// A release published at `published` has aged `minimum_minutes` by `now`
/// (both in microseconds since the Unix epoch).
pub open spec fn old_enough(published: i64, minimum_minutes: u64, now: i64) -> bool {
    published as int + minimum_minutes as int * MICROS_PER_MINUTE <= now as int
}

pub open spec fn eligible(m: VersionMeta, minimum_minutes: u64, now: i64) -> bool {
    !m.yanked && old_enough(m.created_at, minimum_minutes, now)
}

pub open spec fn candidate_of(m: VersionMeta) -> Candidate {
    Candidate { version: m.num, created_at: m.created_at }
}

/// The releases that are not yanked and old enough, in the given order.
pub open spec fn kept(versions: Seq<VersionMeta>, minimum_minutes: u64, now: i64) -> Seq<Candidate>
    decreases versions.len(),
{
    if versions.len() == 0 {
        Seq::empty()
    } else {
        let rest = kept(versions.drop_last(), minimum_minutes, now);
        if eligible(versions.last(), minimum_minutes, now) {
            rest.push(candidate_of(versions.last()))
        } else {
            rest
        }
    }
}

/// `c` placed after every element of `sorted` that is at least as new.
pub open spec fn insert_newest(sorted: Seq<Candidate>, c: Candidate) -> Seq<Candidate>
    decreases sorted.len(),
{
    if sorted.len() == 0 {
        seq![c]
    } else if sorted.last().created_at < c.created_at {
        insert_newest(sorted.drop_last(), c).push(sorted.last())
    } else {
        sorted.push(c)
    }
}

/// `s` ordered newest first; releases published at the same time keep
/// their relative order.
pub open spec fn newest_first(s: Seq<Candidate>) -> Seq<Candidate>
    decreases s.len(),
{
    if s.len() == 0 {
        Seq::empty()
    } else {
        insert_newest(newest_first(s.drop_last()), s.last())
    }
}

/// What the candidate filter returns.
pub open spec fn filtered(versions: Seq<VersionMeta>, minimum_minutes: u64, now: i64) -> Seq<Candidate> {
    newest_first(kept(versions, minimum_minutes, now))
}

pub open spec fn is_newest_first(s: Seq<Candidate>) -> bool {
    forall|i: int, j: int| 0 <= i < j < s.len() ==> s[i].created_at >= s[j].created_at
}

proof fn lemma_insert_at(s: Seq<Candidate>, c: Candidate, j: int)
    requires
        0 <= j <= s.len(),
        forall|k: int| j <= k < s.len() ==> s[k].created_at < c.created_at,
        j == 0 || s[j - 1].created_at >= c.created_at,
    ensures
        insert_newest(s, c) == s.insert(j, c),
    decreases s.len(),
{
    if s.len() == 0 {
        assert(s.insert(j, c) =~= seq![c]);
    } else if j == s.len() {
        assert(s.insert(j, c) =~= s.push(c));
    } else {
        lemma_insert_at(s.drop_last(), c, j);
        assert(s.drop_last().insert(j, c).push(s.last()) =~= s.insert(j, c));
    }
}

/// Inserts `c` into `out` at the place `insert_newest` gives it.
fn insert_candidate(out: &mut Vec<Candidate>, c: Candidate)
    ensures
        final(out)@ == insert_newest(old(out)@, c),
{
    let mut j: usize = out.len();
    while j > 0 && out[j - 1].created_at < c.created_at
        invariant
            j <= out@.len(),
            forall|k: int| j <= k < out@.len() ==> out@[k].created_at < c.created_at,
        decreases j,
    {
        j = j - 1;
    }
    proof {
        lemma_insert_at(out@, c, j as int);
    }
    out.insert(j, c);
}

/// The releases that may replace a fresh one: not yanked, published at
/// least `minimum_minutes` before `now`, newest first (a stable order:
/// releases of the same instant keep the registry's order).
pub fn filter_candidates(versions: Vec<VersionMeta>, minimum_minutes: u64, now: i64) -> (r: Vec<Candidate>)
    ensures
        r@ == filtered(versions@, minimum_minutes, now),
{
    let ghost mut kept_so_far: Seq<Candidate> = Seq::empty();
    let mut sorted: Vec<Candidate> = Vec::new();
    let mut i: usize = 0;
    let ghost vs = versions@;
    while i < versions.len()
        invariant
            vs == versions@,
            i <= vs.len(),
            kept_so_far == kept(vs.subrange(0, i as int), minimum_minutes, now),
            sorted@ == newest_first(kept_so_far),
        decreases vs.len() - i,
    {
        let m = &versions[i];
        assert(vs.subrange(0, i + 1).drop_last() =~= vs.subrange(0, i as int));
        assert(vs.subrange(0, i + 1).last() == vs[i as int]);
        if !m.yanked && (m.created_at as i128) + (minimum_minutes as i128) * MICROS_PER_MINUTE
            <= now as i128 {
            let c = Candidate { version: m.num.clone(), created_at: m.created_at };
            proof {
                let before = kept_so_far;
                kept_so_far = kept_so_far.push(c);
                assert(kept_so_far.drop_last() =~= before);
            }
            insert_candidate(&mut sorted, c);
        }
        i = i + 1;
    }
    assert(vs.subrange(0, vs.len() as int) =~= vs);
    sorted
}

/// A candidate as a listed release that is not yanked.
pub open spec fn as_listed(c: Candidate) -> VersionMeta {
    VersionMeta { created_at: c.created_at, yanked: false, num: c.version }
}

proof fn lemma_insert_keeps(s: Seq<Candidate>, c: Candidate, p: spec_fn(Candidate) -> bool)
    requires
        forall|i: int| 0 <= i < s.len() ==> p(#[trigger] s[i]),
        p(c),
    ensures
        forall|i: int| 0 <= i < insert_newest(s, c).len() ==> p(#[trigger] insert_newest(s, c)[i]),
    decreases s.len(),
{
    if s.len() > 0 && s.last().created_at < c.created_at {
        let r = insert_newest(s.drop_last(), c);
        lemma_insert_keeps(s.drop_last(), c, p);
        assert forall|i: int| 0 <= i < insert_newest(s, c).len() implies p(
            #[trigger] insert_newest(s, c)[i],
        ) by {
            if i < r.len() {
                assert(insert_newest(s, c)[i] == r[i]);
            }
        }
    }
}

proof fn lemma_newest_first_keeps(s: Seq<Candidate>, p: spec_fn(Candidate) -> bool)
    requires
        forall|i: int| 0 <= i < s.len() ==> p(#[trigger] s[i]),
    ensures
        forall|i: int| 0 <= i < newest_first(s).len() ==> p(#[trigger] newest_first(s)[i]),
    decreases s.len(),
{
    if s.len() > 0 {
        lemma_newest_first_keeps(s.drop_last(), p);
        lemma_insert_keeps(newest_first(s.drop_last()), s.last(), p);
    }
}

proof fn lemma_insert_sorted(s: Seq<Candidate>, c: Candidate)
    requires
        is_newest_first(s),
    ensures
        is_newest_first(insert_newest(s, c)),
    decreases s.len(),
{
    if s.len() > 0 && s.last().created_at < c.created_at {
        let d = s.drop_last();
        let r = insert_newest(d, c);
        let t = s.last().created_at;
        lemma_insert_sorted(d, c);
        let p = |x: Candidate| x.created_at >= t;
        assert forall|i: int| 0 <= i < d.len() implies p(#[trigger] d[i]) by {
            assert(s[i].created_at >= s[s.len() - 1].created_at);
        }
        lemma_insert_keeps(d, c, p);
        assert forall|i: int, j: int| 0 <= i < j < r.push(s.last()).len() implies r.push(
            s.last(),
        )[i].created_at >= r.push(s.last())[j].created_at by {
            if j == r.len() {
                assert(p(r[i]));
            }
        }
    }
}

proof fn lemma_newest_first_sorted(s: Seq<Candidate>)
    ensures
        is_newest_first(newest_first(s)),
    decreases s.len(),
{
    if s.len() > 0 {
        lemma_newest_first_sorted(s.drop_last());
        lemma_insert_sorted(newest_first(s.drop_last()), s.last());
    }
}

proof fn lemma_sorted_unchanged(s: Seq<Candidate>)
    requires
        is_newest_first(s),
    ensures
        newest_first(s) == s,
    decreases s.len(),
{
    if s.len() > 0 {
        let d = s.drop_last();
        assert(is_newest_first(d));
        lemma_sorted_unchanged(d);
        if d.len() > 0 {
            assert(d.last().created_at >= s.last().created_at);
        }
        assert(d.push(s.last()) =~= s);
    }
}

proof fn lemma_kept_eligible(cs: Seq<Candidate>, minimum_minutes: u64, now: i64)
    requires
        forall|i: int| 0 <= i < cs.len() ==> old_enough(#[trigger] cs[i].created_at, minimum_minutes, now),
    ensures
        kept(cs.map_values(|c: Candidate| as_listed(c)), minimum_minutes, now) == cs,
    decreases cs.len(),
{
    let ms = cs.map_values(|c: Candidate| as_listed(c));
    if cs.len() > 0 {
        let d = cs.drop_last();
        assert(ms.drop_last() =~= d.map_values(|c: Candidate| as_listed(c)));
        lemma_kept_eligible(d, minimum_minutes, now);
        assert(old_enough(cs[cs.len() - 1].created_at, minimum_minutes, now));
        assert(d.push(cs.last()) =~= cs);
    } else {
        assert(ms.len() == 0);
        assert(cs =~= Seq::<Candidate>::empty());
    }
}

proof fn lemma_kept_old_enough(versions: Seq<VersionMeta>, minimum_minutes: u64, now: i64)
    ensures
        forall|i: int|
            0 <= i < kept(versions, minimum_minutes, now).len() ==> old_enough(
                #[trigger] kept(versions, minimum_minutes, now)[i].created_at,
                minimum_minutes,
                now,
            ),
    decreases versions.len(),
{
    if versions.len() > 0 {
        let rest = kept(versions.drop_last(), minimum_minutes, now);
        lemma_kept_old_enough(versions.drop_last(), minimum_minutes, now);
        assert forall|i: int| 0 <= i < kept(versions, minimum_minutes, now).len() implies old_enough(
            #[trigger] kept(versions, minimum_minutes, now)[i].created_at,
            minimum_minutes,
            now,
        ) by {
            if i < rest.len() {
                assert(kept(versions, minimum_minutes, now)[i] == rest[i]);
            }
        }
    }
}

/// Filtering is idempotent: the candidates, listed again as releases that
/// are not yanked and filtered with the same minimum age and the same
/// `now`, come back as the same sequence in the same order.
pub proof fn lemma_filter_idempotent(versions: Seq<VersionMeta>, minimum_minutes: u64, now: i64)
    ensures
        filtered(
            filtered(versions, minimum_minutes, now).map_values(|c: Candidate| as_listed(c)),
            minimum_minutes,
            now,
        ) == filtered(versions, minimum_minutes, now),
{
    let once = filtered(versions, minimum_minutes, now);
    let k = kept(versions, minimum_minutes, now);
    let p = |c: Candidate| old_enough(c.created_at, minimum_minutes, now);
    lemma_kept_old_enough(versions, minimum_minutes, now);
    assert forall|i: int| 0 <= i < k.len() implies p(#[trigger] k[i]) by {}
    lemma_newest_first_keeps(k, p);
    assert forall|i: int| 0 <= i < once.len() implies old_enough(
        #[trigger] once[i].created_at,
        minimum_minutes,
        now,
    ) by {
        assert(p(once[i]));
    }
    lemma_kept_eligible(once, minimum_minutes, now);
    lemma_newest_first_sorted(k);
    lemma_sorted_unchanged(once);
}

/// `c` is a release of `versions` that is not yanked and is old enough.
pub open spec fn listed_and_eligible(versions: Seq<VersionMeta>, c: Candidate, minimum_minutes: u64, now: i64) -> bool {
    exists|j: int|
        0 <= j < versions.len() && c == candidate_of(#[trigger] versions[j]) && eligible(
            versions[j],
            minimum_minutes,
            now,
        )
}

/// Every candidate is a release of `versions` that is not yanked and is old
/// enough, and the candidates come newest first.
pub proof fn lemma_candidates_eligible(versions: Seq<VersionMeta>, minimum_minutes: u64, now: i64)
    ensures
        is_newest_first(filtered(versions, minimum_minutes, now)),
        forall|i: int|
            0 <= i < filtered(versions, minimum_minutes, now).len() ==> listed_and_eligible(
                versions,
                #[trigger] filtered(versions, minimum_minutes, now)[i],
                minimum_minutes,
                now,
            ),
{
    lemma_newest_first_sorted(kept(versions, minimum_minutes, now));
    lemma_kept_listed(versions, minimum_minutes, now);
    let k = kept(versions, minimum_minutes, now);
    let p = |c: Candidate| listed_and_eligible(versions, c, minimum_minutes, now);
    assert forall|i: int| 0 <= i < k.len() implies p(#[trigger] k[i]) by {}
    lemma_newest_first_keeps(k, p);
    assert forall|i: int| 0 <= i < filtered(versions, minimum_minutes, now).len() implies listed_and_eligible(
        versions,
        #[trigger] filtered(versions, minimum_minutes, now)[i],
        minimum_minutes,
        now,
    ) by {
        assert(p(filtered(versions, minimum_minutes, now)[i]));
    }
}

proof fn lemma_kept_listed(versions: Seq<VersionMeta>, minimum_minutes: u64, now: i64)
    ensures
        forall|i: int|
            0 <= i < kept(versions, minimum_minutes, now).len() ==> listed_and_eligible(
                versions,
                #[trigger] kept(versions, minimum_minutes, now)[i],
                minimum_minutes,
                now,
            ),
    decreases versions.len(),
{
    if versions.len() > 0 {
        let d = versions.drop_last();
        let rest = kept(d, minimum_minutes, now);
        lemma_kept_listed(d, minimum_minutes, now);
        assert forall|i: int| 0 <= i < kept(versions, minimum_minutes, now).len() implies listed_and_eligible(
            versions,
            #[trigger] kept(versions, minimum_minutes, now)[i],
            minimum_minutes,
            now,
        ) by {
            if i < rest.len() {
                assert(kept(versions, minimum_minutes, now)[i] == rest[i]);
                assert(listed_and_eligible(d, rest[i], minimum_minutes, now));
                let j = choose|j: int|
                    0 <= j < d.len() && rest[i] == candidate_of(#[trigger] d[j]) && eligible(
                        d[j],
                        minimum_minutes,
                        now,
                    );
                assert(versions[j] == d[j]);
            } else {
                let j = versions.len() - 1;
                assert(versions[j] == versions.last());
            }
        }
    }
}

/// What the resolver answered to a request to pin one release.
#[derive(Debug, Clone)]
pub enum PinOutcome {
    /// The lockfile now holds the requested release.
    Applied,
    /// The resolver refused; its output names what stood in the way.
    Rejected { stdout: String, stderr: String },
}

/// A package that the resolver named as the reason for a refusal, with
/// its version where the resolver gave one.
#[derive(Debug, Clone)]
pub struct Blocker {
    pub name: String,
    pub version: Option<String>,
}

/// The text that introduces a blocker in the resolver's output.
pub const BLOCKER_SENTINEL: &'static str = "required by package `";

pub type BlockerView = (Seq<char>, Option<Seq<char>>);

pub open spec fn blocker_view(b: Blocker) -> BlockerView {
    (b.name@, opt_view(b.version))
}

pub open spec fn blocker_views(bs: Seq<Blocker>) -> Seq<BlockerView> {
    bs.map_values(|b: Blocker| blocker_view(b))
}

/// The first index in `[i, hi)` that holds `c`, or `hi`.
pub open spec fn first_at(s: Seq<char>, c: char, i: int, hi: int) -> int
    decreases hi - i,
{
    if i >= hi {
        hi
    } else if s[i] == c {
        i
    } else {
        first_at(s, c, i + 1, hi)
    }
}

/// The last index in `[lo, hi)` that holds `c`.
pub open spec fn last_at(s: Seq<char>, c: char, lo: int, hi: int) -> Option<int>
    decreases hi - lo,
{
    if hi <= lo {
        None
    } else if s[hi - 1] == c {
        Some(hi - 1)
    } else {
        last_at(s, c, lo, hi - 1)
    }
}

/// The first index from `i` on, below `hi`, that does not hold `c`.
pub open spec fn skip_char(s: Seq<char>, c: char, i: int, hi: int) -> int
    decreases hi - i,
{
    if i < hi && s[i] == c {
        skip_char(s, c, i + 1, hi)
    } else {
        i
    }
}

/// The blocker that one line of output names: the line, trimmed, begins
/// with the sentinel; the payload runs to the next backtick; it splits at
/// its last space into a name and a version, which loses any leading `v`.
/// A payload without a space is a name alone.
pub open spec fn blocker_in(line: Seq<char>) -> Option<BlockerView> {
    let lo = skip_space(line, 0);
    let hi = skip_space_back(line, lo, line.len() as int);
    let p = BLOCKER_SENTINEL@;
    let a = lo + p.len();
    if hi - lo >= p.len() && line.subrange(lo, a) == p {
        let e = first_at(line, '`', a, hi);
        if e < hi {
            match last_at(line, ' ', a, e) {
                Some(k) => Some(
                    (line.subrange(a, k), Some(line.subrange(skip_char(line, 'v', k + 1, e), e))),
                ),
                None => Some((line.subrange(a, e), None)),
            }
        } else {
            None
        }
    } else {
        None
    }
}

/// Whether `list` already holds `b`: a blocker with a version repeats one
/// of the same name and version; one without repeats any of the same name.
pub open spec fn already_listed(list: Seq<BlockerView>, b: BlockerView) -> bool {
    match b.1 {
        Some(v) => exists|i: int| 0 <= i < list.len() && #[trigger] list[i].0 == b.0 && list[i].1 == Some(v),
        None => exists|i: int| 0 <= i < list.len() && #[trigger] list[i].0 == b.0,
    }
}

/// The blockers that `lines` name, each once, in the order of their lines.
pub open spec fn blockers_in(lines: Seq<Seq<char>>) -> Seq<BlockerView>
    decreases lines.len(),
{
    if lines.len() == 0 {
        Seq::empty()
    } else {
        let prev = blockers_in(lines.drop_last());
        match blocker_in(lines.last()) {
            Some(b) => if already_listed(prev, b) {
                prev
            } else {
                prev.push(b)
            },
            None => prev,
        }
    }
}

/// The blockers named in the resolver's standard output, then in its
/// standard error, read line by line.
pub open spec fn blockers_of(stdout: Seq<char>, stderr: Seq<char>) -> Seq<BlockerView> {
    blockers_in(split_on(stdout, seq!['\n']) + split_on(stderr, seq!['\n']))
}

fn first_index(s: &Vec<char>, c: char, from: usize, hi: usize) -> (r: usize)
    requires
        from <= hi <= s@.len(),
    ensures
        r as int == first_at(s@, c, from as int, hi as int),
        from <= r <= hi,
{
    let mut i = from;
    while i < hi && s[i] != c
        invariant
            from <= i <= hi <= s@.len(),
            first_at(s@, c, from as int, hi as int) == first_at(s@, c, i as int, hi as int),
        decreases hi - i,
    {
        i = i + 1;
    }
    i
}

fn last_index(s: &Vec<char>, c: char, lo: usize, hi: usize) -> (r: Option<usize>)
    requires
        lo <= hi <= s@.len(),
    ensures
        match r {
            Some(k) => last_at(s@, c, lo as int, hi as int) == Some(k as int) && lo <= k < hi,
            None => last_at(s@, c, lo as int, hi as int) is None,
        },
{
    let mut j = hi;
    while j > lo
        invariant
            lo <= j <= hi <= s@.len(),
            last_at(s@, c, lo as int, hi as int) == last_at(s@, c, lo as int, j as int),
        decreases j,
    {
        if s[j - 1] == c {
            return Some(j - 1);
        }
        j = j - 1;
    }
    None
}

fn skip_leading(s: &Vec<char>, c: char, from: usize, hi: usize) -> (r: usize)
    requires
        from <= hi <= s@.len(),
    ensures
        r as int == skip_char(s@, c, from as int, hi as int),
        from <= r <= hi,
{
    let mut i = from;
    while i < hi && s[i] == c
        invariant
            from <= i <= hi <= s@.len(),
            skip_char(s@, c, from as int, hi as int) == skip_char(s@, c, i as int, hi as int),
        decreases hi - i,
    {
        i = i + 1;
    }
    i
}

/// The blocker that one line names, if any.
fn blocker_on_line(line: &str) -> (r: Option<Blocker>)
    ensures
        match r {
            Some(b) => blocker_in(line@) == Some(blocker_view(b)),
            None => blocker_in(line@) is None,
        },
{
    let cs = chars_of(line);
    let (lo, hi) = trim_bounds(&cs);
    let sentinel = chars_of(BLOCKER_SENTINEL);
    if !has_prefix_at(&cs, lo, hi, &sentinel) {
        return None;
    }
    let a = lo + sentinel.len();
    let e = first_index(&cs, '`', a, hi);
    if e >= hi {
        return None;
    }
    match last_index(&cs, ' ', a, e) {
        Some(k) => {
            let v = skip_leading(&cs, 'v', k + 1, e);
            let name = line.substring_char(a, k).to_owned();
            let version = line.substring_char(v, e).to_owned();
            Some(Blocker { name, version: Some(version) })
        },
        None => {
            let name = line.substring_char(a, e).to_owned();
            Some(Blocker { name, version: None })
        },
    }
}

fn is_listed(list: &Vec<Blocker>, b: &Blocker) -> (r: bool)
    ensures
        r == already_listed(blocker_views(list@), blocker_view(*b)),
{
    let ghost lv = blocker_views(list@);
    let mut i: usize = 0;
    while i < list.len()
        invariant
            lv == blocker_views(list@),
            i <= list@.len(),
            forall|j: int|
                0 <= j < i ==> !(#[trigger] lv[j].0 == b.name@ && (b.version is None || lv[j].1
                    == opt_view(b.version))),
        decreases list@.len() - i,
    {
        let e = &list[i];
        assert(lv[i as int] == blocker_view(*e));
        if same_name(e, b) {
            match &b.version {
                None => {
                    assert(lv[i as int].0 == blocker_view(*b).0);
                    return true;
                },
                Some(v) => match &e.version {
                    Some(w) => {
                        if w.as_str().to_owned() == v.as_str().to_owned() {
                            assert(lv[i as int].0 == blocker_view(*b).0 && lv[i as int].1 == Some(v@));
                            return true;
                        }
                    },
                    None => {},
                },
            }
        }
        i = i + 1;
    }
    false
}

fn same_name(a: &Blocker, b: &Blocker) -> (r: bool)
    ensures
        r == (a.name@ == b.name@),
{
    a.name == b.name
}

/// The blockers that the resolver's output names, each once: the lines of
/// standard output, then those of standard error, are scanned for the
/// sentinel `required by package \``.
pub fn parse_blockers(stdout: &str, stderr: &str) -> (r: Vec<Blocker>)
    ensures
        blocker_views(r@) == blockers_of(stdout@, stderr@),
{
    let seps: Vec<char> = vec!['\n'];
    let mut lines = split_text(stdout, &seps);
    let mut more = split_text(stderr, &seps);
    assert(seps@ =~= seq!['\n']);
    let ghost first = lines@;
    let ghost second = more@;
    lines.append(&mut more);
    let ghost lv = views(lines@);
    assert(lv =~= split_on(stdout@, seq!['\n']) + split_on(stderr@, seq!['\n'])) by {
        assert(lines@ == first + second);
        assert(views(first) == split_on(stdout@, seq!['\n']));
        assert(views(second) == split_on(stderr@, seq!['\n']));
    }
    let mut out: Vec<Blocker> = Vec::new();
    let mut i: usize = 0;
    while i < lines.len()
        invariant
            lv == views(lines@),
            i <= lines@.len(),
            blocker_views(out@) == blockers_in(lv.subrange(0, i as int)),
        decreases lines@.len() - i,
    {
        assert(lv.subrange(0, i + 1).drop_last() =~= lv.subrange(0, i as int));
        assert(lv.subrange(0, i + 1).last() == lines@[i as int]@);
        match blocker_on_line(lines[i].as_str()) {
            Some(b) => {
                if !is_listed(&out, &b) {
                    out.push(b);
                    assert(blocker_views(out@) =~= blocker_views(out@).drop_last().push(
                        blocker_view(b),
                    ));
                    assert(blocker_views(out@).drop_last() =~= blockers_in(lv.subrange(0, i as int)));
                }
            },
            None => {},
        }
        i = i + 1;
    }
    assert(lv.subrange(0, lines@.len() as int) =~= lv);
    out
}

} // verus!
