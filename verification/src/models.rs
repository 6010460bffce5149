//! Data model of the remote catalog: challenges, attachments, the grouping of
//! challenges into categories, and the wire decoding of flag-submission
//! results.

use vstd::prelude::*;

verus! {

/// An attachment of a challenge: a file name and the URL it is fetched from.
pub struct Attachment {
    pub file_name: String,
    pub download_url: String,
}

/// A challenge as the remote catalog reports it.
pub struct Challenge {
    pub name: String,
    pub author: String,
    pub description: String,
    pub categories: Vec<String>,
    pub solved_by_player: bool,
    pub solved_by_team: bool,
    pub attachments: Vec<Attachment>,
}

impl Challenge {
    /// A challenge counts as solved when the player or the team solved it.
    pub open spec fn spec_solved(&self) -> bool {
        self.solved_by_player || self.solved_by_team
    }

    pub fn solved(&self) -> (r: bool)
        ensures
            r == self.spec_solved(),
    {
        self.solved_by_player || self.solved_by_team
    }
}

/// What the directory reconciler needs to know of one challenge.
pub struct ChallengeSummary {
    pub name: String,
    pub solved_by_player: bool,
    pub solved_by_team: bool,
}

impl ChallengeSummary {
    pub open spec fn spec_solved(&self) -> bool {
        self.solved_by_player || self.solved_by_team
    }

    pub fn solved(&self) -> (r: bool)
        ensures
            r == self.spec_solved(),
    {
        self.solved_by_player || self.solved_by_team
    }
}

/// One category of the catalog and the challenges filed under it.
pub struct CategoryChallenges {
    pub category: String,
    pub challenges: Vec<ChallengeSummary>,
}

/// The remote catalog, grouped by category.
pub struct Catalog {
    pub categories: Vec<CategoryChallenges>,
}

/// The sentinel category for challenges that declare none.
pub open spec fn uncategorized() -> Seq<char> {
    "Uncategorized"@
}

/// Challenge `ch` is filed under category `cat`: it declares it, or it
/// declares no category at all and `cat` is the sentinel.
pub open spec fn challenge_declares(ch: Challenge, cat: Seq<char>) -> bool {
    (exists|k: int| 0 <= k < ch.categories.len() && ch.categories[k]@ == cat)
    || (ch.categories.len() == 0 && cat == uncategorized())
}

impl Catalog {
    /// The catalog files a challenge named `name` under category `cat`.
    pub open spec fn has_pair(&self, cat: Seq<char>, name: Seq<char>) -> bool {
        exists|k: int, j: int|
            0 <= k < self.categories.len()
            && 0 <= j < self.categories[k].challenges.len()
            && self.categories[k].category@ == cat
            && self.categories[k].challenges[j].name@ == name
    }

    /// The catalog has an entry for category `cat`.
    pub open spec fn has_category(&self, cat: Seq<char>) -> bool {
        exists|k: int| 0 <= k < self.categories.len() && self.categories[k].category@ == cat
    }

    /// Category names are distinct, and within each category the challenge
    /// names are distinct.
    pub open spec fn wf(&self) -> bool {
        &&& forall|k1: int, k2: int|
            0 <= k1 < k2 < self.categories.len()
                ==> self.categories[k1].category@ != self.categories[k2].category@
        &&& forall|k: int, j1: int, j2: int|
            0 <= k < self.categories.len()
            && 0 <= j1 < j2 < self.categories[k].challenges.len()
                ==> self.categories[k].challenges[j1].name@
                    != self.categories[k].challenges[j2].name@
    }
}

/// The sequence of category entries lists a category named `c`.
pub open spec fn cats_listed(cats: Seq<CategoryChallenges>, c: Seq<char>) -> bool {
    exists|k: int| 0 <= k < cats.len() && (#[trigger] cats[k]).category@ == c
}

/// The sequence of category entries files a challenge named `n` under `c`.
pub open spec fn cats_has_pair(cats: Seq<CategoryChallenges>, c: Seq<char>, n: Seq<char>) -> bool {
    exists|k: int, j: int|
        0 <= k < cats.len() && 0 <= j < cats[k].challenges.len()
        && cats[k].category@ == c && (#[trigger] cats[k].challenges[j]).name@ == n
}

/// The sequence of category entries holds the summary `s` under category `c`.
pub open spec fn cats_has_summary(cats: Seq<CategoryChallenges>, c: Seq<char>, s: ChallengeSummary) -> bool {
    exists|k: int, j: int|
        0 <= k < cats.len() && 0 <= j < cats[k].challenges.len()
        && cats[k].category@ == c && (#[trigger] cats[k].challenges[j]) == s
}

/// Category names distinct, challenge names distinct within each category.
pub open spec fn cats_wf(cats: Seq<CategoryChallenges>) -> bool {
    &&& forall|k1: int, k2: int|
        0 <= k1 < k2 < cats.len()
            ==> (#[trigger] cats[k1]).category@ != (#[trigger] cats[k2]).category@
    &&& forall|k: int, j1: int, j2: int|
        0 <= k < cats.len() && 0 <= j1 < j2 < cats[k].challenges.len()
            ==> (#[trigger] cats[k].challenges[j1]).name@
                != (#[trigger] cats[k].challenges[j2]).name@
}

/// The summary `s` carries the name and solve flags of an input challenge
/// that declares category `cat`.
pub open spec fn summary_from(challenges: Seq<Challenge>, cat: Seq<char>, s: ChallengeSummary) -> bool {
    exists|i: int|
        0 <= i < challenges.len() && (#[trigger] challenges[i]).name@ == s.name@
        && challenges[i].solved_by_player == s.solved_by_player
        && challenges[i].solved_by_team == s.solved_by_team
        && challenge_declares(challenges[i], cat)
}

/// An input challenge named `n` declares category `c`.
pub open spec fn declares_pair(challenges: Seq<Challenge>, c: Seq<char>, n: Seq<char>) -> bool {
    exists|i: int|
        0 <= i < challenges.len() && (#[trigger] challenges[i]).name@ == n
        && challenge_declares(challenges[i], c)
}

/// The catalog groups exactly the given challenges: it is well formed, files
/// the pair (category, name) exactly when a challenge of that name declares
/// the category — a challenge with several categories fans out into an
/// independent entry under each — and each summary carries the solve flags of
/// such a challenge.
pub open spec fn catalog_from(challenges: Seq<Challenge>, catalog: Catalog) -> bool {
    &&& catalog.wf()
    &&& forall|c: Seq<char>, n: Seq<char>|
        #[trigger] catalog.has_pair(c, n) == declares_pair(challenges, c, n)
    &&& forall|c: Seq<char>, s: ChallengeSummary|
        #[trigger] cats_has_summary(catalog.categories@, c, s)
            ==> summary_from(challenges, c, s)
}

/// The reconciler's view of one challenge.
pub fn summarize(ch: &Challenge) -> (r: ChallengeSummary)
    ensures
        r.name@ == ch.name@,
        r.solved_by_player == ch.solved_by_player,
        r.solved_by_team == ch.solved_by_team,
{
    ChallengeSummary {
        name: ch.name.clone(),
        solved_by_player: ch.solved_by_player,
        solved_by_team: ch.solved_by_team,
    }
}

fn find_category(cats: &Vec<CategoryChallenges>, cat: &str) -> (r: Option<usize>)
    ensures
        r matches Some(i) ==> i < cats@.len() && cats@[i as int].category@ == cat@,
        r is None ==> forall|k: int| 0 <= k < cats@.len()
            ==> (#[trigger] cats@[k]).category@ != cat@,
{
    let mut k: usize = 0;
    while k < cats.len()
        invariant
            k <= cats@.len(),
            forall|k2: int| 0 <= k2 < k ==> (#[trigger] cats@[k2]).category@ != cat@,
        decreases cats@.len() - k,
    {
        if crate::text::str_eq(cats[k].category.as_str(), cat) {
            return Some(k);
        }
        k += 1;
    }
    None
}

fn has_summary_named(v: &Vec<ChallengeSummary>, name: &str) -> (r: bool)
    ensures
        r == exists|j: int| 0 <= j < v@.len() && (#[trigger] v@[j]).name@ == name@,
{
    let mut j: usize = 0;
    while j < v.len()
        invariant
            j <= v@.len(),
            forall|j2: int| 0 <= j2 < j ==> (#[trigger] v@[j2]).name@ != name@,
        decreases v@.len() - j,
    {
        if crate::text::str_eq(v[j].name.as_str(), name) {
            return true;
        }
        j += 1;
    }
    false
}

/// Files challenge `ch` under category `cat`, creating the category entry if
/// missing; filing an already-filed name under the same category changes
/// nothing.
fn add_to_category(cats: &mut Vec<CategoryChallenges>, cat: &str, ch: &Challenge)
    ensures
        forall|c: Seq<char>|
            #[trigger] cats_listed(final(cats)@, c) == (cats_listed(old(cats)@, c) || c == cat@),
        forall|c: Seq<char>, n: Seq<char>|
            #[trigger] cats_has_pair(final(cats)@, c, n)
                == (cats_has_pair(old(cats)@, c, n) || (c == cat@ && n == ch.name@)),
        forall|c: Seq<char>, s: ChallengeSummary|
            #[trigger] cats_has_summary(final(cats)@, c, s)
                ==> (cats_has_summary(old(cats)@, c, s)
                    || (c == cat@ && s.name@ == ch.name@
                        && s.solved_by_player == ch.solved_by_player
                        && s.solved_by_team == ch.solved_by_team)),
        cats_wf(old(cats)@) ==> cats_wf(final(cats)@),
{
    match find_category(cats, cat) {
        None => {
            let mut summaries: Vec<ChallengeSummary> = Vec::new();
            summaries.push(summarize(ch));
            let entry = CategoryChallenges {
                category: String::from_str(cat),
                challenges: summaries,
            };
            let ghost e = entry;
            cats.push(entry);
            proof {
                let prev = old(cats)@;
                let cur = cats@;
                let pl: int = prev.len() as int;
                assert(cur =~= prev.push(e));
                assert(e.challenges@.len() == 1);
                assert(e.challenges@[0].name@ == ch.name@);
                assert forall|c: Seq<char>|
                    cats_listed(cur, c) == (cats_listed(prev, c) || c == cat@) by {
                    if cats_listed(cur, c) {
                        let k = choose|k: int| 0 <= k < cur.len() && cur[k].category@ == c;
                        if k < pl {
                            assert(prev[k].category@ == c);
                        }
                    }
                    if cats_listed(prev, c) {
                        let k = choose|k: int| 0 <= k < prev.len() && prev[k].category@ == c;
                        assert(cur[k].category@ == c);
                    }
                    if c == cat@ {
                        assert(cur[pl].category@ == c);
                    }
                }
                assert forall|c: Seq<char>, n: Seq<char>|
                    cats_has_pair(cur, c, n)
                        == (cats_has_pair(prev, c, n) || (c == cat@ && n == ch.name@)) by {
                    if cats_has_pair(cur, c, n) {
                        let (k, j) = choose|k: int, j: int|
                            0 <= k < cur.len() && 0 <= j < cur[k].challenges.len()
                                && cur[k].category@ == c && cur[k].challenges[j].name@ == n;
                        if k < pl {
                            assert(prev[k].category@ == c && prev[k].challenges[j].name@ == n);
                            assert(cats_has_pair(prev, c, n));
                        } else {
                            assert(cur[k] == e);
                        }
                    }
                    if cats_has_pair(prev, c, n) {
                        let (k, j) = choose|k: int, j: int|
                            0 <= k < prev.len() && 0 <= j < prev[k].challenges.len()
                                && prev[k].category@ == c && prev[k].challenges[j].name@ == n;
                        assert(cur[k].category@ == c && cur[k].challenges[j].name@ == n);
                    }
                    if c == cat@ && n == ch.name@ {
                        assert(cur[pl].category@ == c && cur[pl].challenges[0].name@ == n);
                    }
                }
                assert forall|c: Seq<char>, s: ChallengeSummary|
                    cats_has_summary(cur, c, s) implies
                        (cats_has_summary(prev, c, s)
                            || (c == cat@ && s.name@ == ch.name@
                                && s.solved_by_player == ch.solved_by_player
                                && s.solved_by_team == ch.solved_by_team)) by {
                    let (k, j) = choose|k: int, j: int|
                        0 <= k < cur.len() && 0 <= j < cur[k].challenges.len()
                            && cur[k].category@ == c && cur[k].challenges[j] == s;
                    if k < pl {
                        assert(prev[k].category@ == c && prev[k].challenges[j] == s);
                    } else {
                        assert(cur[k] == e);
                        assert(s == e.challenges@[0]);
                    }
                }
                if cats_wf(prev) {
                    assert forall|k1: int, k2: int| 0 <= k1 < k2 < cur.len() implies
                        cur[k1].category@ != cur[k2].category@ by {
                        if k2 < pl {
                            assert(prev[k1].category@ != prev[k2].category@);
                        } else {
                            assert(prev[k1].category@ != cat@);
                        }
                    }
                    assert(cats_wf(cur));
                }
            }
        }
        Some(i) => {
            let mut entry = cats.remove(i);
            let ghost prev_entry = entry;
            let already = has_summary_named(&entry.challenges, ch.name.as_str());
            if !already {
                entry.challenges.push(summarize(ch));
            }
            let ghost e = entry;
            cats.insert(i, entry);
            proof {
                let prev = old(cats)@;
                let cur = cats@;
                let ii: int = i as int;
                assert(cur =~= prev.update(ii, e));
                assert(e.category@ == cat@);
                assert(e.category == prev_entry.category);
                assert(prev_entry == prev[ii]);
                if already {
                    assert(e == prev_entry);
                } else {
                    assert(e.challenges@ =~= prev_entry.challenges@.push(e.challenges@.last()));
                    assert(e.challenges@.last().name@ == ch.name@);
                }
                assert forall|c: Seq<char>|
                    cats_listed(cur, c) == (cats_listed(prev, c) || c == cat@) by {
                    if cats_listed(cur, c) {
                        let k = choose|k: int| 0 <= k < cur.len() && cur[k].category@ == c;
                        assert(prev[k].category@ == c);
                    }
                    if cats_listed(prev, c) {
                        let k = choose|k: int| 0 <= k < prev.len() && prev[k].category@ == c;
                        assert(cur[k].category@ == c);
                    }
                    if c == cat@ {
                        assert(cur[ii].category@ == c);
                    }
                }
                assert forall|c: Seq<char>, n: Seq<char>|
                    cats_has_pair(cur, c, n)
                        == (cats_has_pair(prev, c, n) || (c == cat@ && n == ch.name@)) by {
                    if cats_has_pair(cur, c, n) {
                        let (k, j) = choose|k: int, j: int|
                            0 <= k < cur.len() && 0 <= j < cur[k].challenges.len()
                                && cur[k].category@ == c && cur[k].challenges[j].name@ == n;
                        if k != ii {
                            assert(prev[k].category@ == c && prev[k].challenges[j].name@ == n);
                        } else {
                            if j < prev_entry.challenges@.len() {
                                assert(prev[ii].challenges[j].name@ == n);
                                assert(cats_has_pair(prev, c, n));
                            } else {
                                assert(!already);
                                assert(n == ch.name@);
                            }
                        }
                    }
                    if cats_has_pair(prev, c, n) {
                        let (k, j) = choose|k: int, j: int|
                            0 <= k < prev.len() && 0 <= j < prev[k].challenges.len()
                                && prev[k].category@ == c && prev[k].challenges[j].name@ == n;
                        if k != ii {
                            assert(cur[k].category@ == c && cur[k].challenges[j].name@ == n);
                        } else {
                            assert(cur[ii].challenges[j].name@ == n);
                            assert(cur[ii].category@ == c);
                        }
                    }
                    if c == cat@ && n == ch.name@ {
                        if already {
                            let j = choose|j: int|
                                0 <= j < prev_entry.challenges@.len()
                                    && prev_entry.challenges@[j].name@ == ch.name@;
                            assert(cur[ii].challenges[j].name@ == n);
                        } else {
                            assert(cur[ii].challenges[e.challenges@.len() - 1].name@ == n);
                        }
                        assert(cats_has_pair(cur, c, n));
                    }
                }
                assert forall|c: Seq<char>, s: ChallengeSummary|
                    cats_has_summary(cur, c, s) implies
                        (cats_has_summary(prev, c, s)
                            || (c == cat@ && s.name@ == ch.name@
                                && s.solved_by_player == ch.solved_by_player
                                && s.solved_by_team == ch.solved_by_team)) by {
                    let (k, j) = choose|k: int, j: int|
                        0 <= k < cur.len() && 0 <= j < cur[k].challenges.len()
                            && cur[k].category@ == c && cur[k].challenges[j] == s;
                    if k != ii {
                        assert(prev[k].category@ == c && prev[k].challenges[j] == s);
                    } else {
                        if j < prev_entry.challenges@.len() {
                            assert(prev[ii].category@ == c && prev[ii].challenges[j] == s);
                        } else {
                            assert(s == e.challenges@.last());
                        }
                    }
                }
                if cats_wf(prev) {
                    assert forall|k1: int, k2: int| 0 <= k1 < k2 < cur.len() implies
                        cur[k1].category@ != cur[k2].category@ by {
                        assert(prev[k1].category@ != prev[k2].category@);
                        assert(cur[k1].category@ == prev[k1].category@);
                        assert(cur[k2].category@ == prev[k2].category@);
                    }
                    assert forall|k: int, j1: int, j2: int|
                        0 <= k < cur.len() && 0 <= j1 < j2 < cur[k].challenges.len() implies
                        cur[k].challenges[j1].name@ != cur[k].challenges[j2].name@ by {
                        if k != ii {
                            assert(prev[k].challenges[j1].name@ != prev[k].challenges[j2].name@);
                        } else {
                            if j2 < prev_entry.challenges@.len() {
                                assert(prev[ii].challenges[j1].name@
                                    != prev[ii].challenges[j2].name@);
                            } else {
                                assert(!already);
                                assert(cur[ii].challenges[j2].name@ == ch.name@);
                                assert(prev_entry.challenges@[j1].name@ != ch.name@);
                            }
                        }
                    }
                    assert(cats_wf(cur));
                }
            }
        }
    }
}

/// Groups a list of challenges into the catalog, category by category: a
/// challenge appears under every category it declares — fan-out, never
/// dedup — and one that declares none is filed under the `Uncategorized`
/// sentinel.
#[verifier::loop_isolation(false)]
pub fn build_catalog(challenges: &Vec<Challenge>) -> (r: Catalog)
    ensures
        catalog_from(challenges@, r),
{
    let mut cats: Vec<CategoryChallenges> = Vec::new();
    let mut i: usize = 0;
    while i < challenges.len()
        invariant
            i <= challenges@.len(),
            cats_wf(cats@),
            forall|c: Seq<char>, n: Seq<char>|
                #[trigger] cats_has_pair(cats@, c, n)
                    == declares_pair(challenges@.take(i as int), c, n),
            forall|c: Seq<char>, s: ChallengeSummary|
                #[trigger] cats_has_summary(cats@, c, s) ==> summary_from(challenges@, c, s),
        decreases challenges@.len() - i,
    {
        let ghost chi = challenges@[i as int];
        let ghost pre = cats@;
        let ch = &challenges[i];
        if ch.categories.len() == 0 {
            add_to_category(&mut cats, "Uncategorized", ch);
            proof {
                reveal_strlit("Uncategorized");
                assert(("Uncategorized")@ == uncategorized());
                assert(challenge_declares(chi, uncategorized()));
                assert forall|c: Seq<char>, n: Seq<char>|
                    cats_has_pair(cats@, c, n)
                        == declares_pair(challenges@.take(i + 1), c, n) by {
                    lemma_declares_take_step(challenges@, i as int, c, n);
                    if c == uncategorized() && n == chi.name@ {
                        assert(declares_pair(challenges@.take(i + 1), c, n));
                    }
                    if challenge_declares(chi, c) && n == chi.name@ {
                        assert(c == uncategorized());
                    }
                }
                assert forall|c: Seq<char>, s: ChallengeSummary|
                    cats_has_summary(cats@, c, s) implies summary_from(challenges@, c, s) by {
                    if !cats_has_summary(pre, c, s) {
                        assert(c == uncategorized() && s.name@ == chi.name@);
                        assert(challenges@[i as int].name@ == s.name@);
                    }
                }
            }
        } else {
            let mut k: usize = 0;
            while k < ch.categories.len()
                invariant
                    k <= ch.categories@.len(),
                    cats_wf(cats@),
                    forall|c: Seq<char>, n: Seq<char>|
                        #[trigger] cats_has_pair(cats@, c, n)
                            == (declares_pair(challenges@.take(i as int), c, n)
                                || (n == chi.name@
                                    && exists|k2: int| 0 <= k2 < k
                                        && (#[trigger] chi.categories@[k2])@ == c)),
                    forall|c: Seq<char>, s: ChallengeSummary|
                        #[trigger] cats_has_summary(cats@, c, s)
                            ==> summary_from(challenges@, c, s),
                decreases ch.categories@.len() - k,
            {
                let ghost pre2 = cats@;
                let ghost catk = chi.categories@[k as int]@;
                add_to_category(&mut cats, ch.categories[k].as_str(), ch);
                proof {
                    let kp1: int = k + 1;
                    assert(challenge_declares(chi, catk));
                    assert forall|c: Seq<char>, n: Seq<char>|
                        cats_has_pair(cats@, c, n)
                            == (declares_pair(challenges@.take(i as int), c, n)
                                || (n == chi.name@
                                    && exists|k2: int| 0 <= k2 < kp1
                                        && (#[trigger] chi.categories@[k2])@ == c)) by {
                        if cats_has_pair(cats@, c, n) {
                            if cats_has_pair(pre2, c, n) {
                                if !declares_pair(challenges@.take(i as int), c, n) {
                                    let k2 = choose|k2: int| 0 <= k2 < k
                                        && (#[trigger] chi.categories@[k2])@ == c;
                                    assert(0 <= k2 < kp1);
                                }
                            } else {
                                assert(c == catk && n == chi.name@);
                                assert((chi.categories@[k as int])@ == c);
                            }
                        }
                        if declares_pair(challenges@.take(i as int), c, n) {
                            assert(cats_has_pair(pre2, c, n));
                        }
                        if n == chi.name@ && exists|k2: int| 0 <= k2 < kp1
                            && (#[trigger] chi.categories@[k2])@ == c {
                            let k2 = choose|k2: int| 0 <= k2 < kp1
                                && (#[trigger] chi.categories@[k2])@ == c;
                            if k2 < k {
                                assert(cats_has_pair(pre2, c, n));
                            } else {
                                assert(c == catk);
                            }
                        }
                    }
                    assert forall|c: Seq<char>, s: ChallengeSummary|
                        cats_has_summary(cats@, c, s) implies
                            summary_from(challenges@, c, s) by {
                        if !cats_has_summary(pre2, c, s) {
                            assert(c == catk && s.name@ == chi.name@);
                            assert(challenges@[i as int].name@ == s.name@);
                        }
                    }
                }
                k += 1;
            }
            proof {
                assert forall|c: Seq<char>, n: Seq<char>|
                    cats_has_pair(cats@, c, n)
                        == declares_pair(challenges@.take(i + 1), c, n) by {
                    lemma_declares_take_step(challenges@, i as int, c, n);
                    assert(chi.categories@.len() > 0);
                    if n == chi.name@ && exists|k2: int| 0 <= k2 < chi.categories@.len()
                        && (#[trigger] chi.categories@[k2])@ == c {
                        assert(challenge_declares(chi, c));
                    }
                    if challenge_declares(chi, c) {
                        assert(exists|k2: int| 0 <= k2 < chi.categories@.len()
                            && (#[trigger] chi.categories@[k2])@ == c);
                    }
                }
            }
        }
        i += 1;
    }
    proof {
        assert(challenges@.take(challenges@.len() as int) =~= challenges@);
        let r = Catalog { categories: cats };
        assert forall|c: Seq<char>, n: Seq<char>|
            r.has_pair(c, n) == declares_pair(challenges@, c, n) by {
            if r.has_pair(c, n) {
                let (k, j) = choose|k: int, j: int|
                    0 <= k < r.categories.len() && 0 <= j < r.categories[k].challenges.len()
                        && r.categories[k].category@ == c
                        && r.categories[k].challenges[j].name@ == n;
                assert(cats@[k].category@ == c && cats@[k].challenges[j].name@ == n);
                assert(cats_has_pair(cats@, c, n));
            }
            if cats_has_pair(cats@, c, n) {
                let (k, j) = choose|k: int, j: int|
                    0 <= k < cats@.len() && 0 <= j < cats@[k].challenges.len()
                        && cats@[k].category@ == c
                        && (#[trigger] cats@[k].challenges[j]).name@ == n;
                assert(r.categories[k].category@ == c && r.categories[k].challenges[j].name@ == n);
                assert(r.has_pair(c, n));
            }
        }
        assert(r.wf());
    }
    Catalog { categories: cats }
}

proof fn lemma_declares_take_step(challenges: Seq<Challenge>, i: int, c: Seq<char>, n: Seq<char>)
    requires
        0 <= i < challenges.len(),
    ensures
        declares_pair(challenges.take(i + 1), c, n)
            == (declares_pair(challenges.take(i), c, n)
                || (n == challenges[i].name@ && challenge_declares(challenges[i], c))),
{
    let ti = challenges.take(i);
    let tip1 = challenges.take(i + 1);
    assert(tip1 =~= ti.push(challenges[i]));
    if declares_pair(tip1, c, n) {
        let k = choose|k: int|
            0 <= k < tip1.len() && (#[trigger] tip1[k]).name@ == n
                && challenge_declares(tip1[k], c);
        if k < i {
            assert(ti[k].name@ == n && challenge_declares(ti[k], c));
            assert(declares_pair(ti, c, n));
        } else {
            assert(tip1[k] == challenges[i]);
        }
    }
    if declares_pair(ti, c, n) {
        let k = choose|k: int|
            0 <= k < ti.len() && (#[trigger] ti[k]).name@ == n && challenge_declares(ti[k], c);
        assert(tip1[k].name@ == n && challenge_declares(tip1[k], c));
    }
    if n == challenges[i].name@ && challenge_declares(challenges[i], c) {
        assert(tip1[i].name@ == n && challenge_declares(tip1[i], c));
    }
}

/// The outcome of submitting a flag, as the server reports it.
///
/// The wire value is a small integer; an integer outside the known table
/// decodes to `Unknown` rather than failing.
#[derive(Clone, Copy, Debug, PartialEq, Eq, Structural)]
pub enum SubmitFlagResult {
    Correct,
    Incorrect,
    RateLimited,
    AlreadySolved,
    CtfNotStarted,
    CtfHasEnded,
    Unknown,
}

/// The decode table from wire integer to result variant.
pub open spec fn spec_submit_result_of_code(code: i32) -> SubmitFlagResult {
    if code == 0 {
        SubmitFlagResult::Correct
    } else if code == 1 {
        SubmitFlagResult::Incorrect
    } else if code == 2 {
        SubmitFlagResult::RateLimited
    } else if code == 3 {
        SubmitFlagResult::AlreadySolved
    } else if code == 4 {
        SubmitFlagResult::CtfNotStarted
    } else if code == 5 {
        SubmitFlagResult::CtfHasEnded
    } else {
        SubmitFlagResult::Unknown
    }
}

/// Decodes the wire integer of a flag-submission result.
pub fn submit_result_from_code(code: i32) -> (r: SubmitFlagResult)
    ensures
        r == spec_submit_result_of_code(code),
{
    if code == 0 {
        SubmitFlagResult::Correct
    } else if code == 1 {
        SubmitFlagResult::Incorrect
    } else if code == 2 {
        SubmitFlagResult::RateLimited
    } else if code == 3 {
        SubmitFlagResult::AlreadySolved
    } else if code == 4 {
        SubmitFlagResult::CtfNotStarted
    } else if code == 5 {
        SubmitFlagResult::CtfHasEnded
    } else {
        SubmitFlagResult::Unknown
    }
}

} // verus!
