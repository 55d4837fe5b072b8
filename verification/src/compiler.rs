//! The compiler context: per-compilation state, centred on a counter
//! that mints unique aliases from optional hints.

use vstd::prelude::*;
use crate::text::{str_eq, u32_to_decimal, dec_digits};

verus! {

/// Whether `c` is an ASCII decimal digit.
pub open spec fn is_ascii_digit(c: char) -> bool {
    ('0' as u32) <= (c as u32) <= ('9' as u32)
}

/// The leftmost position at or after `i` where a suffix of the form a
/// tilde followed by one or more ASCII digits begins, running to the
/// end of the text.
pub open spec fn tilde_suffix_start(s: Seq<char>, i: int) -> Option<int>
    decreases s.len() - i,
{
    if i < 0 || i >= s.len() {
        None
    } else if s[i] == '~' && i + 1 < s.len() && (forall|k: int|
        i < k < s.len() ==> is_ascii_digit(#[trigger] s[k])) {
        Some(i)
    } else {
        tilde_suffix_start(s, i + 1)
    }
}

/// Relies on `regex::Regex::find` with the pattern of a tilde followed
/// by one or more ASCII digits anchored at the end of the haystack:
/// `find` returns the leftmost match, which for this pattern is the
/// longest such suffix, and the match runs to the end.
#[verifier::external_body]
fn find_tilde_suffix<'a>(s: &'a str) -> (r: Option<&'a str>)
    ensures
        match r {
            Some(m) => tilde_suffix_start(s@, 0) is Some && m@ == s@.subrange(
                tilde_suffix_start(s@, 0)->Some_0,
                s@.len() as int,
            ),
            None => tilde_suffix_start(s@, 0) is None,
        },
{
    let re = regex::Regex::new("~[0-9]+$").unwrap();
    re.find(s).map(|m| m.as_str())
}

/// The association of alias hints with how often each was used.
pub open spec fn counts_map(s: Seq<(String, u32)>) -> Map<Seq<char>, u32>
    decreases s.len(),
{
    if s.len() == 0 {
        Map::empty()
    } else {
        counts_map(s.drop_last()).insert(s.last().0@, s.last().1)
    }
}

/// Whether an association list has pairwise distinct keys.
pub open spec fn distinct_keys(s: Seq<(String, u32)>) -> bool {
    forall|p: int, q: int|
        0 <= p < q < s.len() ==> (#[trigger] s[p]).0@ != (#[trigger] s[q]).0@
}

proof fn lemma_counts_map_lookup(s: Seq<(String, u32)>, idx: int)
    requires
        distinct_keys(s),
        0 <= idx < s.len(),
    ensures
        counts_map(s).dom().contains(s[idx].0@),
        counts_map(s)[s[idx].0@] == s[idx].1,
    decreases s.len(),
{
    if idx < s.len() - 1 {
        assert(s.drop_last()[idx] == s[idx]);
        lemma_counts_map_lookup(s.drop_last(), idx);
        assert(s[s.len() - 1].0@ != s[idx].0@);
    }
}

proof fn lemma_counts_map_absent(s: Seq<(String, u32)>, k: Seq<char>)
    requires
        forall|idx: int| 0 <= idx < s.len() ==> (#[trigger] s[idx]).0@ != k,
    ensures
        !counts_map(s).dom().contains(k),
    decreases s.len(),
{
    if s.len() > 0 {
        assert forall|idx: int| 0 <= idx < s.drop_last().len() implies (#[trigger] s.drop_last()[
            idx]).0@ != k by {
            assert(s.drop_last()[idx] == s[idx]);
        }
        lemma_counts_map_absent(s.drop_last(), k);
    }
}

proof fn lemma_counts_map_update(s: Seq<(String, u32)>, idx: int, k2: String, v: u32)
    requires
        distinct_keys(s),
        0 <= idx < s.len(),
        k2@ == s[idx].0@,
    ensures
        counts_map(s.update(idx, (k2, v))) =~= counts_map(s).insert(k2@, v),
    decreases s.len(),
{
    let t = s.update(idx, (k2, v));
    if idx == s.len() - 1 {
        assert(t.drop_last() =~= s.drop_last());
        assert(t.last() == (k2, v));
        assert(counts_map(t) =~= counts_map(s).insert(k2@, v));
    } else {
        assert(t.drop_last() =~= s.drop_last().update(idx, (k2, v)));
        assert(s.drop_last()[idx] == s[idx]);
        assert forall|p: int, q: int|
            0 <= p < q < s.drop_last().len() implies (#[trigger] s.drop_last()[p]).0@ != (
        #[trigger] s.drop_last()[q]).0@ by {
            assert(s.drop_last()[p] == s[p]);
            assert(s.drop_last()[q] == s[q]);
        }
        lemma_counts_map_update(s.drop_last(), idx, k2, v);
        assert(t.last() == s.last());
        assert(s.last().0@ != k2@);
        assert(counts_map(t) =~= counts_map(s).insert(k2@, v));
    }
}

/// The count handed out for a hint: one more than the recorded one,
/// saturating, or one for a hint never seen.
pub open spec fn next_count(m: Map<Seq<char>, u32>, k: Seq<char>) -> u32 {
    if m.dom().contains(k) {
        if m[k] < u32::MAX {
            (m[k] + 1) as u32
        } else {
            m[k]
        }
    } else {
        1
    }
}

/// Mints unique aliases by counting how often each hint was used.
pub struct AliasGenerator {
    counts: Vec<(String, u32)>,
}

impl View for AliasGenerator {
    type V = Map<Seq<char>, u32>;

    closed spec fn view(&self) -> Map<Seq<char>, u32> {
        counts_map(self.counts@)
    }
}

impl AliasGenerator {
    /// The internal association list never repeats a key.
    pub closed spec fn wf(&self) -> bool {
        distinct_keys(self.counts@)
    }

    /// A generator that has seen no hints.
    pub fn new() -> (g: AliasGenerator)
        ensures
            g@ == Map::<Seq<char>, u32>::empty(),
            g.wf(),
    {
        let g = AliasGenerator { counts: Vec::new() };
        proof {
            assert(g@ =~= Map::<Seq<char>, u32>::empty());
        }
        g
    }

    /// Records one more use of `name` and returns the new count.
    pub fn next_val(&mut self, name: &str) -> (n: u32)
        requires
            old(self).wf(),
        ensures
            final(self).wf(),
            n == next_count(old(self)@, name@),
            final(self)@ == old(self)@.insert(name@, n),
    {
        let ghost s0 = self.counts@;
        let n_len = self.counts.len();
        let mut idx: usize = 0;
        let mut found = false;
        while idx < n_len && !found
            invariant
                self.counts@ == s0,
                n_len == s0.len(),
                distinct_keys(s0),
                idx <= s0.len(),
                forall|m: int| 0 <= m < idx ==> (#[trigger] s0[m]).0@ != name@,
                found ==> idx < s0.len() && s0[idx as int].0@ == name@,
            decreases s0.len() - idx + if found {
                0int
            } else {
                1int
            },
        {
            if str_eq(self.counts[idx].0.as_str(), name) {
                found = true;
            } else {
                idx = idx + 1;
            }
        }
        if found {
            let cur = self.counts[idx].1;
            let nv = if cur < u32::MAX {
                cur + 1
            } else {
                cur
            };
            let key = self.counts[idx].0.clone();
            proof {
                lemma_counts_map_lookup(s0, idx as int);
                lemma_counts_map_update(s0, idx as int, key, nv);
            }
            self.counts[idx] = (key, nv);
            return nv;
        }
        proof {
            lemma_counts_map_absent(s0, name@);
        }
        let key = String::from_str(name);
        self.counts.push((key, 1));
        proof {
            assert(self.counts@.drop_last() =~= s0);
            assert(self.counts@.last().0@ == name@);
            assert(self@ =~= old(self)@.insert(name@, 1u32));
        }
        1
    }

    /// Mints an alias from a hint.
    ///
    /// A hint that already ends in a tilde-and-digits suffix is keyed
    /// by that suffix alone; any other hint is keyed by the empty
    /// string and kept whole. Without a hint the fixed first alias is
    /// handed out and nothing is recorded.
    pub fn get(&mut self, hint: Option<&str>) -> (r: String)
        requires
            old(self).wf(),
        ensures
            final(self).wf(),
            match hint {
                None => r@ == "v~1"@ && final(self)@ == old(self)@,
                Some(h) => match tilde_suffix_start(h@, 0) {
                    Some(i) => {
                        let suffix = h@.subrange(i, h@.len() as int);
                        let c = next_count(old(self)@, suffix);
                        r@ == suffix + "~"@ + dec_digits(c as nat) && final(self)@ == old(
                            self,
                        )@.insert(suffix, c)
                    },
                    None => {
                        let c = next_count(old(self)@, Seq::<char>::empty());
                        r@ == h@ + "~"@ + dec_digits(c as nat) && final(self)@ == old(
                            self,
                        )@.insert(Seq::<char>::empty(), c)
                    },
                },
            },
    {
        match hint {
            Some(h) => {
                match find_tilde_suffix(h) {
                    Some(suffix) => {
                        let idx = self.next_val(suffix);
                        let digits = u32_to_decimal(idx);
                        String::from_str(suffix).concat("~").concat(digits.as_str())
                    },
                    None => {
                        proof {
                            reveal_strlit("");
                            assert(""@ =~= Seq::<char>::empty());
                        }
                        let idx = self.next_val("");
                        let digits = u32_to_decimal(idx);
                        String::from_str(h).concat("~").concat(digits.as_str())
                    },
                }
            },
            None => String::from_str("v~1"),
        }
    }
}

/// The per-compilation context: owns the alias generator for one
/// compilation pass.
pub struct CompilerContext {
    pub aliases: AliasGenerator,
}

impl CompilerContext {
    /// A fresh context with an unused alias generator.
    pub fn new() -> (c: CompilerContext)
        ensures
            c.aliases@ == Map::<Seq<char>, u32>::empty(),
            c.aliases.wf(),
    {
        CompilerContext { aliases: AliasGenerator::new() }
    }
}

} // verus!
