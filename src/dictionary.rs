//! A dictionary of words indexed by length, and the sparse patterns used to
//! look up words that fit a partly filled slot.

use vstd::hash_set::StringHashSet;
use vstd::prelude::*;

use crate::text::{chars_equal, chars_of, lower_char, lowercase_chars};

verus! {

/// `c` with an ASCII capital turned into its small letter; any other
/// character unchanged.
pub open spec fn ascii_lower(c: char) -> char {
    if 'A' <= c <= 'Z' {
        ((c as u32) + 32) as char
    } else {
        c
    }
}

/// `a` and `b` are the same letter without regard to case: their Unicode
/// lower-case mappings agree.
pub open spec fn same_letter(a: char, b: char) -> bool {
    lower_char(a) == lower_char(b)
}

/// `w` has exactly the pattern's length and agrees, without regard to case,
/// with every position the pattern fixes.
pub open spec fn pattern_matches(p: Seq<Option<char>>, w: Seq<char>) -> bool {
    &&& w.len() == p.len()
    &&& forall|i: int|
        0 <= i < p.len() ==> match #[trigger] p[i] {
            Some(c) => same_letter(c, w[i]),
            None => true,
        }
}

/// The lower-case form of an ASCII letter; any other character is returned as it is.
pub fn to_ascii_lower(c: char) -> (r: char)
    ensures
        r == ascii_lower(c),
{
    if 'A' <= c && c <= 'Z' {
        ((c as u8) + 32) as char
    } else {
        c
    }
}

/// A word template: a fixed length, and at each position either a required
/// letter or any letter.
#[derive(Debug)]
pub struct SparseWord {
    pattern: Vec<Option<char>>,
}

impl View for SparseWord {
    type V = Seq<Option<char>>;

    closed spec fn view(&self) -> Seq<Option<char>> {
        self.pattern@
    }
}

impl SparseWord {
    /// The template with one position per entry: `Some(c)` requires `c`
    /// there, `None` allows any letter.
    pub fn new(vec: Vec<Option<char>>) -> (w: Self)
        ensures
            w@ == vec@,
    {
        SparseWord { pattern: vec }
    }

    /// Number of positions.
    pub fn len(&self) -> (n: usize)
        ensures
            n == self@.len(),
    {
        self.pattern.len()
    }

    /// Whether `word` fits the template.
    pub fn matches(&self, word: &str) -> (r: bool)
        ensures
            r == pattern_matches(self@, word@),
    {
        let chars = chars_of(word);
        if chars.len() != self.pattern.len() {
            return false;
        }
        for i in 0..chars.len()
            invariant
                chars@ == word@,
                chars@.len() == self@.len(),
                forall|k: int|
                    0 <= k < i ==> match #[trigger] self@[k] {
                        Some(c) => same_letter(c, word@[k]),
                        None => true,
                    },
        {
            if let Some(c) = self.pattern[i] {
                let want = lowercase_chars(c);
                let got = lowercase_chars(chars[i]);
                if !chars_equal(want.as_slice(), got.as_slice()) {
                    assert(!(match self@[i as int] {
                        Some(c) => same_letter(c, word@[i as int]),
                        None => true,
                    }));
                    return false;
                }
            }
        }
        true
    }
}

impl PartialEq for SparseWord {
    fn eq(&self, other: &SparseWord) -> (r: bool) {
        if self.pattern.len() != other.pattern.len() {
            return false;
        }
        for i in 0..self.pattern.len()
            invariant
                self@.len() == other@.len(),
                forall|k: int| 0 <= k < i ==> #[trigger] self@[k] == other@[k],
        {
            let same = match (self.pattern[i], other.pattern[i]) {
                (Some(a), Some(b)) => a == b,
                (None, None) => true,
                _ => false,
            };
            if !same {
                return false;
            }
        }
        assert(self@ =~= other@);
        true
    }
}

impl vstd::std_specs::cmp::PartialEqSpecImpl for SparseWord {
    open spec fn obeys_eq_spec() -> bool {
        true
    }

    open spec fn eq_spec(&self, other: &SparseWord) -> bool {
        self@ == other@
    }
}

/// A set of words split into buckets by length: the bucket for length `n`
/// holds the words of `n` characters. Words as long as the number of buckets,
/// or longer, are not kept.
pub struct Dictionary {
    sets: Vec<StringHashSet>,
    lists: Vec<Vec<String>>,
}

impl View for Dictionary {
    type V = Set<Seq<char>>;

    closed spec fn view(&self) -> Set<Seq<char>> {
        Set::new(
            |w: Seq<char>| w.len() < self.sets@.len() && self.sets@[w.len() as int]@.contains(w),
        )
    }
}

impl Dictionary {
    /// Number of buckets: every word kept is shorter than this.
    pub closed spec fn limit(&self) -> nat {
        self.sets@.len()
    }

    /// Each bucket holds only words of its length, and lists each of them once.
    pub closed spec fn wf(&self) -> bool {
        &&& self.sets@.len() == self.lists@.len()
        &&& forall|b: int, w: Seq<char>|
            0 <= b < self.sets@.len() && #[trigger] self.sets@[b]@.contains(w) ==> w.len() == b
        &&& forall|b: int, k: int|
            0 <= b < self.lists@.len() && 0 <= k < self.lists@[b]@.len() ==> #[trigger] self.sets@[b]@.contains(
                self.lists@[b]@[k]@,
            )
        &&& forall|b: int, w: Seq<char>|
            0 <= b < self.sets@.len() && #[trigger] self.sets@[b]@.contains(w) ==> exists|k: int|
                0 <= k < self.lists@[b]@.len() && #[trigger] self.lists@[b]@[k]@ == w
        &&& forall|b: int, k: int, m: int|
            0 <= b < self.lists@.len() && 0 <= k < m < self.lists@[b]@.len() ==> #[trigger] self.lists@[b]@[k]@
                != #[trigger] self.lists@[b]@[m]@
    }

    /// Every word of the dictionary is shorter than its limit.
    pub proof fn lemma_words_below_limit(&self)
        ensures
            forall|w: Seq<char>| #[trigger] self@.contains(w) ==> w.len() < self.limit(),
    {
    }

    /// An empty dictionary with `size` buckets: it keeps words shorter than `size`.
    pub fn new(size: usize) -> (d: Self)
        ensures
            d.wf(),
            d@ == Set::<Seq<char>>::empty(),
            d.limit() == size,
    {
        let mut sets: Vec<StringHashSet> = Vec::new();
        let mut lists: Vec<Vec<String>> = Vec::new();
        for i in 0..size
            invariant
                sets@.len() == i,
                lists@.len() == i,
                forall|b: int| 0 <= b < i ==> #[trigger] sets@[b]@ == Set::<Seq<char>>::empty(),
                forall|b: int| 0 <= b < i ==> #[trigger] lists@[b]@.len() == 0,
        {
            sets.push(StringHashSet::new());
            lists.push(Vec::new());
        }
        let d = Dictionary { sets, lists };
        assert(d@ =~= Set::<Seq<char>>::empty());
        d
    }

    /// Adds `word` to the bucket for its length; a word too long for every
    /// bucket is dropped. Returns whether the dictionary changed.
    pub fn insert(&mut self, word: String) -> (added: bool)
        requires
            old(self).wf(),
        ensures
            final(self).wf(),
            final(self).limit() == old(self).limit(),
            final(self)@ == if word@.len() < old(self).limit() {
                old(self)@.insert(word@)
            } else {
                old(self)@
            },
            added == (word@.len() < old(self).limit() && !old(self)@.contains(word@)),
    {
        let n = chars_of(word.as_str()).len();
        if n >= self.sets.len() {
            return false;
        }
        let ghost old_set = self.sets@[n as int]@;
        if self.sets[n].contains(word.as_str()) {
            assert(old(self)@.contains(word@));
            return false;
        }
        let copy = word.clone();
        self.sets[n].insert(word);
        self.lists[n].push(copy);
        proof {
            let d = *old(self);
            assert forall|b: int, w: Seq<char>|
                0 <= b < self.sets@.len() && #[trigger] self.sets@[b]@.contains(w) implies exists|k: int|
                0 <= k < self.lists@[b]@.len() && #[trigger] self.lists@[b]@[k]@ == w by {
                if b == n {
                    if w == copy@ {
                        assert(self.lists@[b]@[self.lists@[b]@.len() - 1]@ == w);
                    } else {
                        assert(d.sets@[b]@.contains(w));
                        let k = choose|k: int|
                            0 <= k < d.lists@[b]@.len() && #[trigger] d.lists@[b]@[k]@ == w;
                        assert(self.lists@[b]@[k]@ == w);
                    }
                } else {
                    assert(d.sets@[b]@.contains(w));
                    let k = choose|k: int|
                        0 <= k < d.lists@[b]@.len() && #[trigger] d.lists@[b]@[k]@ == w;
                    assert(self.lists@[b]@[k]@ == w);
                }
            }
            assert forall|b: int, k: int, m: int|
                0 <= b < self.lists@.len() && 0 <= k < m < self.lists@[b]@.len() implies #[trigger] self.lists@[b]@[k]@
                != #[trigger] self.lists@[b]@[m]@ by {
                if b == n && m == self.lists@[b]@.len() - 1 {
                    assert(d.sets@[b]@.contains(d.lists@[b]@[k]@));
                }
            }
            assert forall|b: int, k: int|
                0 <= b < self.lists@.len() && 0 <= k < self.lists@[b]@.len() implies #[trigger] self.sets@[b]@.contains(
                self.lists@[b]@[k]@,
            ) by {
                if b == n && k < d.lists@[b]@.len() {
                    assert(d.sets@[b]@.contains(d.lists@[b]@[k]@));
                }
            }
            assert(self@ =~= d@.insert(word@));
        }
        true
    }

    /// Whether `word` is in the dictionary, exactly as written.
    pub fn is_valid(&self, word: &str) -> (r: bool)
        requires
            self.wf(),
        ensures
            r == self@.contains(word@),
    {
        let n = chars_of(word).len();
        if n < self.sets.len() {
            self.sets[n].contains(word)
        } else {
            false
        }
    }

    /// Up to `count` distinct words of the dictionary that fit `partial_word`;
    /// fewer only when no other word fits.
    #[verifier::rlimit(40)]
    pub fn suggest_words(&self, partial_word: SparseWord, count: usize) -> (r: Vec<String>)
        requires
            self.wf(),
        ensures
            r@.len() <= count,
            forall|k: int|
                0 <= k < r@.len() ==> self@.contains(#[trigger] r@[k]@) && pattern_matches(
                    partial_word@,
                    r@[k]@,
                ),
            forall|k: int, m: int| 0 <= k < m < r@.len() ==> #[trigger] r@[k]@ != #[trigger] r@[m]@,
            partial_word@.len() >= self.limit() ==> r@.len() == 0,
            r@.len() < count ==> forall|w: Seq<char>|
                self@.contains(w) && pattern_matches(partial_word@, w) ==> exists|k: int|
                    0 <= k < r@.len() && #[trigger] r@[k]@ == w,
    {
        let mut suggestions: Vec<String> = Vec::new();
        let n = partial_word.len();
        if count == 0 || n >= self.lists.len() {
            proof {
                if count > 0 {
                    assert forall|w: Seq<char>|
                        self@.contains(w) && pattern_matches(partial_word@, w) implies exists|k: int|
                        0 <= k < suggestions@.len() && #[trigger] suggestions@[k]@ == w by {
                        assert(w.len() == n);
                    }
                }
            }
            return suggestions;
        }
        let words = &self.lists[n];
        let mut i: usize = 0;
        while i < words.len()
            invariant
                i <= words@.len(),
                self.wf(),
                n == partial_word@.len(),
                n < self.lists@.len(),
                words@ == self.lists@[n as int]@,
                suggestions@.len() < count,
                forall|k: int|
                    0 <= k < suggestions@.len() ==> self@.contains(#[trigger] suggestions@[k]@)
                        && pattern_matches(partial_word@, suggestions@[k]@),
                forall|k: int, m: int|
                    0 <= k < m < suggestions@.len() ==> #[trigger] suggestions@[k]@
                        != #[trigger] suggestions@[m]@,
                forall|k: int|
                    #![trigger suggestions@[k]]
                    0 <= k < suggestions@.len() ==> exists|j: int|
                        #![trigger words@[j]]
                        0 <= j < i && words@[j]@ == suggestions@[k]@,
                forall|j: int|
                    0 <= j < i && pattern_matches(partial_word@, #[trigger] words@[j]@) ==> exists|
                        k: int,
                    |
                        0 <= k < suggestions@.len() && #[trigger] suggestions@[k]@ == words@[j]@,
            decreases words@.len() - i,
        {
            let word = &words[i];
            let ghost before = suggestions@;
            proof {
                assert(self.sets@[n as int]@.contains(word@));
                assert(word@.len() == n);
            }
            if partial_word.matches(word.as_str()) {
                proof {
                    assert forall|k: int| 0 <= k < before.len() implies before[k]@ != word@ by {
                        assert(before[k] == suggestions@[k]);
                        let j = choose|j: int| 0 <= j < i && #[trigger] words@[j]@ == before[k]@;
                        assert(words@[j]@ != words@[i as int]@);
                    }
                }
                suggestions.push(word.clone());
                proof {
                    let last = before.len() as int;
                    assert(suggestions@[last]@ == words@[i as int]@);
                    assert forall|j: int|
                        0 <= j < i + 1 && pattern_matches(
                            partial_word@,
                            #[trigger] words@[j]@,
                        ) implies exists|k: int|
                        0 <= k < suggestions@.len() && #[trigger] suggestions@[k]@ == words@[j]@ by {
                        if j == i {
                            assert(suggestions@[last]@ == words@[j]@);
                        } else {
                            let k = choose|k: int|
                                0 <= k < before.len() && #[trigger] before[k]@ == words@[j]@;
                            assert(suggestions@[k] == before[k]);
                        }
                    }
                    assert forall|k: int| 0 <= k < suggestions@.len() implies exists|j: int|
                        #![trigger words@[j]]
                        0 <= j < i + 1 && words@[j]@ == #[trigger] suggestions@[k]@ by {
                        if k == last {
                            assert(words@[i as int]@ == suggestions@[k]@);
                        } else {
                            assert(suggestions@[k] == before[k]);
                            let j = choose|j: int| 0 <= j < i && #[trigger] words@[j]@ == before[k]@;
                            assert(words@[j]@ == suggestions@[k]@);
                        }
                    }
                }
                if suggestions.len() >= count {
                    return suggestions;
                }
            } else {
                proof {
                    assert forall|j: int|
                        0 <= j < i + 1 && pattern_matches(
                            partial_word@,
                            #[trigger] words@[j]@,
                        ) implies exists|k: int|
                        0 <= k < suggestions@.len() && #[trigger] suggestions@[k]@ == words@[j]@ by {
                        if j < i {
                            let k = choose|k: int|
                                0 <= k < before.len() && #[trigger] before[k]@ == words@[j]@;
                            assert(suggestions@[k] == before[k]);
                        }
                    }
                    assert forall|k: int| 0 <= k < suggestions@.len() implies exists|j: int|
                        #![trigger words@[j]]
                        0 <= j < i + 1 && words@[j]@ == #[trigger] suggestions@[k]@ by {
                        let j = choose|j: int| 0 <= j < i && #[trigger] words@[j]@ == before[k]@;
                        assert(words@[j]@ == suggestions@[k]@);
                    }
                }
            }
            i += 1;
        }
        proof {
            assert forall|w: Seq<char>|
                self@.contains(w) && pattern_matches(partial_word@, w) implies exists|k: int|
                0 <= k < suggestions@.len() && #[trigger] suggestions@[k]@ == w by {
                assert(self.sets@[n as int]@.contains(w));
                let j = choose|j: int| 0 <= j < words@.len() && #[trigger] words@[j]@ == w;
                assert(pattern_matches(partial_word@, words@[j]@));
            }
        }
        suggestions
    }
}

/// A pattern only matches words of its own length, and whether it matches
/// does not depend on the case of letters, neither in the word nor in the
/// pattern.
pub proof fn lemma_matches_case_and_length(
    p: Seq<Option<char>>,
    q: Seq<Option<char>>,
    w: Seq<char>,
    v: Seq<char>,
)
    requires
        p.len() == q.len(),
        forall|i: int|
            0 <= i < p.len() ==> match (#[trigger] p[i], q[i]) {
                (Some(a), Some(b)) => same_letter(a, b),
                (None, None) => true,
                _ => false,
            },
        w.len() == v.len(),
        forall|i: int| 0 <= i < w.len() ==> same_letter(#[trigger] w[i], v[i]),
    ensures
        w.len() != p.len() ==> !pattern_matches(p, w),
        pattern_matches(p, w) == pattern_matches(q, v),
{
    if pattern_matches(p, w) {
        assert forall|i: int| 0 <= i < q.len() implies match #[trigger] q[i] {
            Some(c) => same_letter(c, v[i]),
            None => true,
        } by {
            assert(same_letter(w[i], v[i]));
            match p[i] {
                Some(a) => {},
                None => {},
            }
        }
    }
    if pattern_matches(q, v) {
        assert forall|i: int| 0 <= i < p.len() implies match #[trigger] p[i] {
            Some(c) => same_letter(c, w[i]),
            None => true,
        } by {
            assert(same_letter(w[i], v[i]));
            match q[i] {
                Some(a) => {},
                None => {},
            }
        }
    }
}

} // verus!
