//! The tried-flags cache: which flag strings have already been submitted for
//! which challenge. A flag recorded here is never sent again.
//!
//! The cache is a set of (challenge, flag) pairs; its persisted form is one
//! line per pair, the two strings escaped and separated by a tab.

use vstd::prelude::*;
use crate::text::push_char;

verus! {

/// One tried flag: the challenge it was submitted for and the flag string.
pub struct FlagPair {
    pub challenge: String,
    pub flag: String,
}

/// The persisted mapping from challenge name to the set of flag strings that
/// were already submitted for it, kept as the set of its pairs.
pub struct FlagCache {
    pub entries: Vec<FlagPair>,
}

/// `v` holds the pair (`c`, `f`).
pub open spec fn seq_has_pair(v: Seq<FlagPair>, c: Seq<char>, f: Seq<char>) -> bool {
    exists|i: int| 0 <= i < v.len() && v[i].challenge@ == c && v[i].flag@ == f
}

impl FlagCache {
    /// The cache as a sequence of (challenge, flag) character pairs.
    pub open spec fn rep(&self) -> Seq<(Seq<char>, Seq<char>)> {
        self.entries@.map_values(|p: FlagPair| (p.challenge@, p.flag@))
    }

    /// The flag `f` has been recorded for challenge `c`.
    pub open spec fn spec_contains(&self, c: Seq<char>, f: Seq<char>) -> bool {
        seq_has_pair(self.entries@, c, f)
    }

    /// An empty cache: no flag has been tried yet.
    pub fn new() -> (r: FlagCache)
        ensures
            r.rep() == Seq::<(Seq<char>, Seq<char>)>::empty(),
            forall|c: Seq<char>, f: Seq<char>| !r.spec_contains(c, f),
    {
        let r = FlagCache { entries: Vec::new() };
        proof {
            assert(r.rep() =~= Seq::<(Seq<char>, Seq<char>)>::empty());
        }
        r
    }

    /// Whether `flag` was already submitted for `challenge`.
    pub fn contains(&self, challenge: &str, flag: &str) -> (r: bool)
        ensures
            r == self.spec_contains(challenge@, flag@),
    {
        let mut i: usize = 0;
        while i < self.entries.len()
            invariant
                i <= self.entries@.len(),
                forall|j: int| 0 <= j < i ==>
                    !(self.entries@[j].challenge@ == challenge@
                        && self.entries@[j].flag@ == flag@),
            decreases self.entries@.len() - i,
        {
            if crate::text::str_eq(self.entries[i].challenge.as_str(), challenge)
                && crate::text::str_eq(self.entries[i].flag.as_str(), flag) {
                return true;
            }
            i += 1;
        }
        false
    }

    /// Records that `flag` was submitted for `challenge`. Recording an
    /// already-present pair changes nothing; the cache only ever grows.
    pub fn record(&mut self, challenge: &str, flag: &str)
        ensures
            forall|c: Seq<char>, f: Seq<char>|
                final(self).spec_contains(c, f)
                    == (old(self).spec_contains(c, f) || (c == challenge@ && f == flag@)),
            old(self).spec_contains(challenge@, flag@) ==> final(self).rep() == old(self).rep(),
            !old(self).spec_contains(challenge@, flag@) ==>
                final(self).rep() == old(self).rep().push((challenge@, flag@)),
    {
        if !self.contains(challenge, flag) {
            let p = FlagPair {
                challenge: String::from_str(challenge),
                flag: String::from_str(flag),
            };
            self.entries.push(p);
            proof {
                assert(self.rep() =~= old(self).rep().push((challenge@, flag@)));
                assert forall|c: Seq<char>, f: Seq<char>|
                    self.spec_contains(c, f)
                        == (old(self).spec_contains(c, f) || (c == challenge@ && f == flag@)) by {
                    if self.spec_contains(c, f) {
                        let i = choose|i: int|
                            0 <= i < self.entries@.len() && self.entries@[i].challenge@ == c
                                && self.entries@[i].flag@ == f;
                        if i < old(self).entries@.len() {
                            assert(old(self).entries@[i].challenge@ == c
                                && old(self).entries@[i].flag@ == f);
                        }
                    }
                    if old(self).spec_contains(c, f) {
                        let i = choose|i: int|
                            0 <= i < old(self).entries@.len()
                                && old(self).entries@[i].challenge@ == c
                                && old(self).entries@[i].flag@ == f;
                        assert(self.entries@[i].challenge@ == c && self.entries@[i].flag@ == f);
                    }
                    if c == challenge@ && f == flag@ {
                        assert(self.entries@[old(self).entries@.len() as int].challenge@ == c);
                        assert(self.entries@[old(self).entries@.len() as int].flag@ == f);
                    }
                }
            }
        }
    }

    /// How many pairs the cache holds.
    pub fn len(&self) -> (r: usize)
        ensures
            r == self.rep().len(),
    {
        self.entries.len()
    }
}

/// The cache file could not be parsed.
#[derive(Clone, Copy, Debug, PartialEq, Eq, Structural)]
pub enum CacheParseError {
    Malformed,
}

/// The escaped form of one character: backslash, tab and newline become
/// two-character escapes, everything else stands for itself.
pub open spec fn esc_char(ch: char) -> Seq<char> {
    if ch == '\\' {
        seq!['\\', '\\']
    } else if ch == '\t' {
        seq!['\\', 't']
    } else if ch == '\n' {
        seq!['\\', 'n']
    } else {
        seq![ch]
    }
}

/// What a character after a backslash decodes to.
pub open spec fn unesc_char(ch: char) -> Option<char> {
    if ch == '\\' {
        Some('\\')
    } else if ch == 't' {
        Some('\t')
    } else if ch == 'n' {
        Some('\n')
    } else {
        None
    }
}

/// The escaped form of a string.
pub open spec fn esc(s: Seq<char>) -> Seq<char>
    decreases s.len(),
{
    if s.len() == 0 {
        Seq::empty()
    } else {
        esc_char(s[0]) + esc(s.skip(1))
    }
}

/// One line of the cache file: the escaped challenge, a tab, the escaped
/// flag, a newline.
pub open spec fn enc_pair(c: Seq<char>, f: Seq<char>) -> Seq<char> {
    esc(c) + seq!['\t'] + esc(f) + seq!['\n']
}

/// The whole cache file: one line per recorded pair, in order.
pub open spec fn enc(rep: Seq<(Seq<char>, Seq<char>)>) -> Seq<char>
    decreases rep.len(),
{
    if rep.len() == 0 {
        Seq::empty()
    } else {
        enc_pair(rep[0].0, rep[0].1) + enc(rep.skip(1))
    }
}

/// Reads one token: the unescaped characters up to the first unescaped tab or
/// newline, which is left in the rest. A dangling backslash or an unknown
/// escape is a parse error.
pub open spec fn parse_token(s: Seq<char>) -> Option<(Seq<char>, Seq<char>)>
    decreases s.len(),
{
    if s.len() == 0 {
        Some((Seq::empty(), s))
    } else if s[0] == '\t' || s[0] == '\n' {
        Some((Seq::empty(), s))
    } else if s[0] == '\\' {
        if s.len() >= 2 && unesc_char(s[1]) is Some {
            match parse_token(s.skip(2)) {
                Some((t, r)) => Some((seq![unesc_char(s[1]).unwrap()] + t, r)),
                None => None,
            }
        } else {
            None
        }
    } else {
        match parse_token(s.skip(1)) {
            Some((t, r)) => Some((seq![s[0]] + t, r)),
            None => None,
        }
    }
}

/// Reads one line: a challenge token, a tab, a flag token, a newline.
pub open spec fn parse_pair(s: Seq<char>) -> Option<((Seq<char>, Seq<char>), Seq<char>)> {
    match parse_token(s) {
        None => None,
        Some((c, r1)) => if r1.len() > 0 && r1[0] == '\t' {
            match parse_token(r1.skip(1)) {
                None => None,
                Some((f, r2)) => if r2.len() > 0 && r2[0] == '\n' {
                    Some(((c, f), r2.skip(1)))
                } else {
                    None
                },
            }
        } else {
            None
        },
    }
}

/// Parses a whole cache file into its pairs; `None` on any malformation.
pub open spec fn parse_all(s: Seq<char>) -> Option<Seq<(Seq<char>, Seq<char>)>>
    decreases s.len() via parse_all_decreases
{
    if s.len() == 0 {
        Some(Seq::empty())
    } else {
        match parse_pair(s) {
            None => None,
            Some((p, r)) => match parse_all(r) {
                None => None,
                Some(tail) => Some(seq![p] + tail),
            },
        }
    }
}

proof fn lemma_parse_token_len(s: Seq<char>)
    ensures
        parse_token(s) matches Some(tr) ==> tr.1.len() <= s.len(),
    decreases s.len(),
{
    if s.len() == 0 || s[0] == '\t' || s[0] == '\n' {
    } else if s[0] == '\\' {
        if s.len() >= 2 && unesc_char(s[1]) is Some {
            lemma_parse_token_len(s.skip(2));
        }
    } else {
        lemma_parse_token_len(s.skip(1));
    }
}

proof fn lemma_parse_pair_len(s: Seq<char>)
    ensures
        parse_pair(s) matches Some(pr) ==> pr.1.len() < s.len(),
{
    lemma_parse_token_len(s);
    match parse_token(s) {
        None => {}
        Some((c, r1)) => {
            if r1.len() > 0 && r1[0] == '\t' {
                lemma_parse_token_len(r1.skip(1));
            }
        }
    }
}

#[via_fn]
proof fn parse_all_decreases(s: Seq<char>) {
    lemma_parse_pair_len(s);
}

proof fn lemma_esc_append(a: Seq<char>, b: Seq<char>)
    ensures
        esc(a + b) == esc(a) + esc(b),
    decreases a.len(),
{
    if a.len() == 0 {
        assert(a + b =~= b);
        assert(esc(a) + esc(b) =~= esc(b));
    } else {
        assert((a + b)[0] == a[0]);
        assert((a + b).skip(1) =~= a.skip(1) + b);
        lemma_esc_append(a.skip(1), b);
        assert(esc(a + b) =~= esc_char(a[0]) + (esc(a.skip(1)) + esc(b)));
        assert(esc(a) + esc(b) =~= esc_char(a[0]) + (esc(a.skip(1)) + esc(b)));
    }
}

proof fn lemma_enc_append(a: Seq<(Seq<char>, Seq<char>)>, b: Seq<(Seq<char>, Seq<char>)>)
    ensures
        enc(a + b) == enc(a) + enc(b),
    decreases a.len(),
{
    if a.len() == 0 {
        assert(a + b =~= b);
        assert(enc(a) + enc(b) =~= enc(b));
    } else {
        assert((a + b)[0] == a[0]);
        assert((a + b).skip(1) =~= a.skip(1) + b);
        lemma_enc_append(a.skip(1), b);
        assert(enc(a + b) =~= enc_pair(a[0].0, a[0].1) + (enc(a.skip(1)) + enc(b)));
        assert(enc(a) + enc(b) =~= enc_pair(a[0].0, a[0].1) + (enc(a.skip(1)) + enc(b)));
    }
}

proof fn lemma_parse_token_esc(t: Seq<char>, rest: Seq<char>)
    requires
        rest.len() == 0 || rest[0] == '\t' || rest[0] == '\n',
    ensures
        parse_token(esc(t) + rest) == Some((t, rest)),
    decreases t.len(),
{
    let s = esc(t) + rest;
    if t.len() == 0 {
        assert(s =~= rest);
        assert(parse_token(s) == Some((Seq::<char>::empty(), rest)));
        assert(t =~= Seq::<char>::empty());
    } else {
        let c = t[0];
        assert(s =~= esc_char(c) + (esc(t.skip(1)) + rest));
        lemma_parse_token_esc(t.skip(1), rest);
        if c == '\\' || c == '\t' || c == '\n' {
            let e = if c == '\\' { '\\' } else if c == '\t' { 't' } else { 'n' };
            assert(esc_char(c) =~= seq!['\\', e]);
            assert(s.len() >= 2);
            assert(s[0] == '\\');
            assert(s[1] == e);
            assert(unesc_char(e) == Some(c));
            assert(s.skip(2) =~= esc(t.skip(1)) + rest);
            assert(parse_token(s) == Some((seq![c] + t.skip(1), rest)));
            assert(seq![c] + t.skip(1) =~= t);
        } else {
            assert(esc_char(c) =~= seq![c]);
            assert(s[0] == c);
            assert(s.skip(1) =~= esc(t.skip(1)) + rest);
            assert(parse_token(s) == Some((seq![c] + t.skip(1), rest)));
            assert(seq![c] + t.skip(1) =~= t);
        }
    }
}

proof fn lemma_parse_pair_enc(c: Seq<char>, f: Seq<char>, rest: Seq<char>)
    ensures
        parse_pair(enc_pair(c, f) + rest) == Some(((c, f), rest)),
{
    let s = enc_pair(c, f) + rest;
    let rest1 = seq!['\t'] + esc(f) + seq!['\n'] + rest;
    assert(s =~= esc(c) + rest1);
    assert(rest1[0] == '\t');
    lemma_parse_token_esc(c, rest1);
    assert(parse_token(s) == Some((c, rest1)));
    let rest2 = seq!['\n'] + rest;
    assert(rest1.skip(1) =~= esc(f) + rest2);
    assert(rest2[0] == '\n');
    lemma_parse_token_esc(f, rest2);
    assert(parse_token(rest1.skip(1)) == Some((f, rest2)));
    assert(rest2.skip(1) =~= rest);
}

/// Law, one half of the persistence round trip: a saved cache parses back to
/// exactly the pairs it held, in order. With `FlagCache::save` and
/// `FlagCache::load` this gives `load(save(cache)) == cache`.
pub proof fn lemma_cache_roundtrip(rep: Seq<(Seq<char>, Seq<char>)>)
    ensures
        parse_all(enc(rep)) == Some(rep),
    decreases rep.len(),
{
    if rep.len() == 0 {
    } else {
        let p = rep[0];
        let tail = rep.skip(1);
        lemma_parse_pair_enc(p.0, p.1, enc(tail));
        assert((p.0, p.1) == p);
        assert(enc(rep).len() > 0) by {
            assert(enc_pair(p.0, p.1).len() >= 2);
        }
        lemma_cache_roundtrip(tail);
        assert(parse_all(enc(rep)) == Some(seq![p] + tail));
        assert(seq![p] + tail =~= rep);
    }
}

proof fn lemma_parse_token_inverse(s: Seq<char>)
    ensures
        parse_token(s) matches Some(tr) ==> esc(tr.0) + tr.1 == s,
    decreases s.len(),
{
    if s.len() == 0 || s[0] == '\t' || s[0] == '\n' {
        match parse_token(s) {
            Some(tr) => {
                assert(esc(tr.0) + tr.1 =~= s);
            }
            None => {}
        }
    } else if s[0] == '\\' {
        if s.len() >= 2 && unesc_char(s[1]) is Some {
            lemma_parse_token_inverse(s.skip(2));
            match parse_token(s.skip(2)) {
                Some((t, r)) => {
                    let u = unesc_char(s[1]).unwrap();
                    let full = seq![u] + t;
                    assert(full[0] == u);
                    assert(full.skip(1) =~= t);
                    assert(esc_char(u) =~= seq![s[0], s[1]]);
                    assert(esc(full) =~= esc_char(u) + esc(t));
                    assert(esc(full) + r =~= esc_char(u) + (esc(t) + r));
                    assert(s =~= seq![s[0], s[1]] + s.skip(2));
                    assert(esc(full) + r =~= s);
                }
                None => {}
            }
        }
    } else {
        lemma_parse_token_inverse(s.skip(1));
        match parse_token(s.skip(1)) {
            Some((t, r)) => {
                let full = seq![s[0]] + t;
                assert(full[0] == s[0]);
                assert(full.skip(1) =~= t);
                assert(esc_char(s[0]) =~= seq![s[0]]);
                assert(esc(full) =~= esc_char(s[0]) + esc(t));
                assert(esc(full) + r =~= esc_char(s[0]) + (esc(t) + r));
                assert(s =~= seq![s[0]] + s.skip(1));
                assert(esc(full) + r =~= s);
            }
            None => {}
        }
    }
}

proof fn lemma_parse_pair_inverse(s: Seq<char>)
    ensures
        parse_pair(s) matches Some(pr) ==> enc_pair(pr.0.0, pr.0.1) + pr.1 == s,
{
    lemma_parse_token_inverse(s);
    match parse_token(s) {
        None => {}
        Some((c, r1)) => {
            if r1.len() > 0 && r1[0] == '\t' {
                lemma_parse_token_inverse(r1.skip(1));
                match parse_token(r1.skip(1)) {
                    None => {}
                    Some((f, r2)) => {
                        if r2.len() > 0 && r2[0] == '\n' {
                            assert(r1 =~= seq!['\t'] + r1.skip(1));
                            assert(r2 =~= seq!['\n'] + r2.skip(1));
                            assert(enc_pair(c, f) + r2.skip(1) =~= s);
                        }
                    }
                }
            }
        }
    }
}

/// Law, the other half of the round trip: a file that parses re-encodes to
/// itself, character for character. With `FlagCache::save` and
/// `FlagCache::load` this gives `save(load(file)) == file` for every file
/// that loads.
pub proof fn lemma_cache_roundtrip_file(s: Seq<char>)
    ensures
        parse_all(s) matches Some(rep) ==> enc(rep) == s,
    decreases s.len(),
{
    if s.len() == 0 {
        match parse_all(s) {
            Some(rep0) => {
                assert(enc(rep0) =~= s);
            }
            None => {}
        }
    } else {
        lemma_parse_pair_inverse(s);
        lemma_parse_pair_len(s);
        match parse_pair(s) {
            None => {}
            Some((p, r)) => {
                lemma_cache_roundtrip_file(r);
                match parse_all(r) {
                    None => {}
                    Some(tail) => {
                        let rep = seq![p] + tail;
                        assert(rep[0] == p);
                        assert(rep.skip(1) =~= tail);
                        assert(enc(rep) =~= enc_pair(p.0, p.1) + enc(tail));
                        assert(enc(rep) =~= s);
                    }
                }
            }
        }
    }
}

/// Appends the escaped form of `s` to `out`.
fn esc_append(out: &mut String, s: &str)
    ensures
        final(out)@ == old(out)@ + esc(s@),
{
    let n = s.unicode_len();
    let mut i: usize = 0;
    proof {
        assert(out@ =~= old(out)@ + esc(s@.take(0)));
    }
    while i < n
        invariant
            i <= n,
            n == s@.len(),
            out@ == old(out)@ + esc(s@.take(i as int)),
        decreases n - i,
    {
        let ch = s.get_char(i);
        let ghost pre = out@;
        if ch == '\\' {
            out.append("\\\\");
            proof {
                reveal_strlit("\\\\");
                assert(("\\\\")@ =~= esc_char(ch));
            }
        } else if ch == '\t' {
            out.append("\\t");
            proof {
                reveal_strlit("\\t");
                assert(("\\t")@ =~= esc_char(ch));
            }
        } else if ch == '\n' {
            out.append("\\n");
            proof {
                reveal_strlit("\\n");
                assert(("\\n")@ =~= esc_char(ch));
            }
        } else {
            push_char(out, ch);
            proof {
                assert(seq![ch] =~= esc_char(ch));
            }
        }
        proof {
            let ip1: int = i + 1;
            assert(out@ == pre + esc_char(ch));
            assert(s@.take(ip1) =~= s@.take(i as int) + seq![s@[i as int]]);
            lemma_esc_append(s@.take(i as int), seq![s@[i as int]]);
            assert(seq![s@[i as int]].skip(1) =~= Seq::<char>::empty());
            assert(esc(seq![s@[i as int]]) =~= esc_char(s@[i as int]) + esc(Seq::<char>::empty()));
            assert(esc(seq![s@[i as int]]) =~= esc_char(ch));
            assert(out@ =~= old(out)@ + esc(s@.take(ip1)));
        }
        i += 1;
    }
    proof {
        assert(s@.take(n as int) =~= s@);
    }
}

impl FlagCache {
    /// Serializes the cache: one line per pair, challenge and flag escaped
    /// and separated by a tab. Overwrites any previous file wholly.
    pub fn save(&self) -> (r: String)
        ensures
            r@ == enc(self.rep()),
    {
        let mut out = String::new();
        proof {
            assert(out@ =~= enc(self.rep().take(0)));
        }
        let mut k: usize = 0;
        while k < self.entries.len()
            invariant
                k <= self.entries@.len(),
                out@ == enc(self.rep().take(k as int)),
            decreases self.entries@.len() - k,
        {
            let ghost pre = out@;
            let ghost pair = self.rep()[k as int];
            esc_append(&mut out, self.entries[k].challenge.as_str());
            out.append("\t");
            esc_append(&mut out, self.entries[k].flag.as_str());
            out.append("\n");
            proof {
                reveal_strlit("\t");
                reveal_strlit("\n");
                let kp1: int = k + 1;
                assert(("\t")@ =~= seq!['\t']);
                assert(("\n")@ =~= seq!['\n']);
                assert(out@ =~= pre + enc_pair(pair.0, pair.1));
                assert(self.rep().take(kp1) =~= self.rep().take(k as int) + seq![pair]);
                lemma_enc_append(self.rep().take(k as int), seq![pair]);
                assert(seq![pair].skip(1) =~= Seq::<(Seq<char>, Seq<char>)>::empty());
                assert(enc(seq![pair]) =~= enc_pair(pair.0, pair.1)
                    + enc(Seq::<(Seq<char>, Seq<char>)>::empty()));
                assert(out@ =~= enc(self.rep().take(kp1)));
            }
            k += 1;
        }
        proof {
            assert(self.rep().take(self.entries@.len() as int) =~= self.rep());
        }
        out
    }

    /// Deserializes a cache file. A missing file (`None`) is an empty cache;
    /// a file that does not parse is an error, never a silently empty cache.
    pub fn load(content: Option<&str>) -> (r: Result<FlagCache, CacheParseError>)
        ensures
            content is None ==> (r matches Ok(cache)
                && cache.rep() == Seq::<(Seq<char>, Seq<char>)>::empty()),
            content matches Some(s) ==> ((r is Err) == (parse_all(s@) is None)),
            content matches Some(s)
                ==> (r matches Ok(cache) ==> parse_all(s@) == Some(cache.rep())),
    {
        match content {
            None => Ok(FlagCache::new()),
            Some(s) => {
                let r = decode_cache(s);
                proof {
                    assert((r is Err) == (parse_all(s@) is None));
                    match &r {
                        Ok(cache) => {
                            assert(parse_all(s@) == Some(cache.rep()));
                        }
                        Err(e) => {}
                    }
                }
                r
            }
        }
    }
}

/// Reads one token of a cache file starting at character `start`; returns the
/// unescaped token and the position of the separator after it.
fn take_token(s: &str, start: usize) -> (r: Result<(String, usize), CacheParseError>)
    requires
        start <= s@.len(),
    ensures
        r matches Ok(te) ==> start <= te.1 <= s@.len()
            && parse_token(s@.skip(start as int)) == Some((te.0@, s@.skip(te.1 as int))),
        r is Err ==> parse_token(s@.skip(start as int)) is None,
{
    let n = s.unicode_len();
    let mut i: usize = start;
    let mut out = String::new();
    proof {
        assert(out@ + s@.skip(start as int) =~= s@.skip(start as int));
    }
    while i < n
        invariant
            start <= i <= n,
            n == s@.len(),
            parse_token(s@.skip(start as int)) == (match parse_token(s@.skip(i as int)) {
                Some(tr) => Some((out@ + tr.0, tr.1)),
                None => None::<(Seq<char>, Seq<char>)>,
            }),
        decreases n - i,
    {
        let ch = s.get_char(i);
        proof {
            assert(s@.skip(i as int)[0] == s@[i as int]);
        }
        if ch == '\t' || ch == '\n' {
            proof {
                assert(parse_token(s@.skip(i as int))
                    == Some((Seq::<char>::empty(), s@.skip(i as int))));
                assert(out@ + Seq::<char>::empty() =~= out@);
            }
            return Ok((out, i));
        }
        let ghost pre = out@;
        let ghost si = s@.skip(i as int);
        if ch == '\\' {
            if i + 1 == n {
                proof {
                    assert(si.len() == 1);
                    assert(parse_token(si) is None);
                }
                return Err(CacheParseError::Malformed);
            }
            let ch2 = s.get_char(i + 1);
            proof {
                assert(si.len() >= 2);
                assert(si[1] == s@[i + 1]);
            }
            if ch2 == '\\' {
                push_char(&mut out, '\\');
            } else if ch2 == 't' {
                push_char(&mut out, '\t');
            } else if ch2 == 'n' {
                push_char(&mut out, '\n');
            } else {
                proof {
                    assert(unesc_char(si[1]) is None);
                    assert(parse_token(si) is None);
                }
                return Err(CacheParseError::Malformed);
            }
            proof {
                let u = unesc_char(si[1]).unwrap();
                assert(out@ == pre + seq![u]);
                assert(si.skip(2) =~= s@.skip(i + 2));
                assert(parse_token(si) == (match parse_token(s@.skip(i + 2)) {
                    Some(tr) => Some((seq![u] + tr.0, tr.1)),
                    None => None::<(Seq<char>, Seq<char>)>,
                }));
                match parse_token(s@.skip(i + 2)) {
                    Some(tr) => {
                        assert(pre + (seq![u] + tr.0) =~= (pre + seq![u]) + tr.0);
                    }
                    None => {}
                }
            }
            i += 2;
        } else {
            push_char(&mut out, ch);
            proof {
                assert(si.skip(1) =~= s@.skip(i + 1));
                assert(parse_token(si) == (match parse_token(s@.skip(i + 1)) {
                    Some(tr) => Some((seq![ch] + tr.0, tr.1)),
                    None => None::<(Seq<char>, Seq<char>)>,
                }));
                match parse_token(s@.skip(i + 1)) {
                    Some(tr) => {
                        assert(pre + (seq![ch] + tr.0) =~= (pre + seq![ch]) + tr.0);
                    }
                    None => {}
                }
            }
            i += 1;
        }
    }
    proof {
        assert(s@.skip(i as int).len() == 0);
        assert(parse_token(s@.skip(i as int)) == Some((Seq::<char>::empty(), s@.skip(i as int))));
        assert(out@ + Seq::<char>::empty() =~= out@);
    }
    Ok((out, i))
}

/// Parses a whole serialized cache.
fn decode_cache(s: &str) -> (r: Result<FlagCache, CacheParseError>)
    ensures
        r matches Ok(cache) ==> parse_all(s@) == Some(cache.rep()),
        (r is Err) == (parse_all(s@) is None),
{
    let n = s.unicode_len();
    let mut i: usize = 0;
    let mut entries: Vec<FlagPair> = Vec::new();
    proof {
        let c0 = FlagCache { entries: entries };
        assert(c0.rep() =~= Seq::<(Seq<char>, Seq<char>)>::empty());
        assert(s@.skip(0) =~= s@);
        match parse_all(s@) {
            Some(tail) => {
                assert(c0.rep() + tail =~= tail);
            }
            None => {}
        }
    }
    while i < n
        invariant
            i <= n,
            n == s@.len(),
            parse_all(s@) == (match parse_all(s@.skip(i as int)) {
                Some(tail) => Some(FlagCache { entries: entries }.rep() + tail),
                None => None::<Seq<(Seq<char>, Seq<char>)>>,
            }),
        decreases n - i,
    {
        let ghost si = s@.skip(i as int);
        let ghost pre_rep = FlagCache { entries: entries }.rep();
        let (challenge, p1) = match take_token(s, i) {
            Ok(t) => t,
            Err(e) => {
                proof {
                    assert(parse_pair(si) is None);
                    assert(parse_all(si) is None);
                }
                return Err(e);
            }
        };
        if p1 == n {
            proof {
                assert(s@.skip(p1 as int).len() == 0);
                assert(parse_pair(si) is None);
                assert(parse_all(si) is None);
            }
            return Err(CacheParseError::Malformed);
        }
        if s.get_char(p1) != '\t' {
            proof {
                assert(s@.skip(p1 as int)[0] == s@[p1 as int]);
                assert(parse_pair(si) is None);
                assert(parse_all(si) is None);
            }
            return Err(CacheParseError::Malformed);
        }
        proof {
            assert(s@.skip(p1 as int)[0] == s@[p1 as int]);
            assert(s@.skip(p1 as int).skip(1) =~= s@.skip(p1 + 1));
        }
        let (flag, p2) = match take_token(s, p1 + 1) {
            Ok(t) => t,
            Err(e) => {
                proof {
                    assert(parse_pair(si) is None);
                    assert(parse_all(si) is None);
                }
                return Err(e);
            }
        };
        if p2 == n {
            proof {
                assert(s@.skip(p2 as int).len() == 0);
                assert(parse_pair(si) is None);
                assert(parse_all(si) is None);
            }
            return Err(CacheParseError::Malformed);
        }
        if s.get_char(p2) != '\n' {
            proof {
                assert(s@.skip(p2 as int)[0] == s@[p2 as int]);
                assert(parse_pair(si) is None);
                assert(parse_all(si) is None);
            }
            return Err(CacheParseError::Malformed);
        }
        proof {
            assert(s@.skip(p2 as int)[0] == s@[p2 as int]);
            assert(s@.skip(p2 as int).skip(1) =~= s@.skip(p2 + 1));
            assert(parse_pair(si) == Some(((challenge@, flag@), s@.skip(p2 + 1))));
        }
        entries.push(FlagPair { challenge, flag });
        proof {
            let new_rep = FlagCache { entries: entries }.rep();
            assert(new_rep =~= pre_rep.push((challenge@, flag@)));
            assert(si.len() > 0);
            match parse_all(s@.skip(p2 + 1)) {
                Some(tail) => {
                    assert(parse_all(si) == Some(seq![(challenge@, flag@)] + tail));
                    assert(pre_rep + (seq![(challenge@, flag@)] + tail) =~= new_rep + tail);
                }
                None => {
                    assert(parse_all(si) is None);
                }
            }
        }
        i = p2 + 1;
    }
    proof {
        assert(s@.skip(i as int).len() == 0);
        assert(parse_all(s@.skip(i as int)) == Some(Seq::<(Seq<char>, Seq<char>)>::empty()));
        let cfin = FlagCache { entries: entries };
        assert(cfin.rep() + Seq::<(Seq<char>, Seq<char>)>::empty() =~= cfin.rep());
    }
    Ok(FlagCache { entries })
}

/// Law, as run: saving a cache and loading the result gives back a cache with
/// the same recorded pairs.
pub fn save_load_roundtrip(cache: &FlagCache) -> (r: Result<FlagCache, CacheParseError>)
    ensures
        r matches Ok(loaded) && loaded.rep() == cache.rep(),
{
    let text = cache.save();
    proof {
        lemma_cache_roundtrip(cache.rep());
    }
    let r = FlagCache::load(Some(text.as_str()));
    proof {
        assert(r matches Ok(loaded) && loaded.rep() == cache.rep());
    }
    r
}

} // verus!
