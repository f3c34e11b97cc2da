use crate::error::LehmerError;
use vstd::prelude::*;

verus! {

/// `a` comes strictly before `b` in the natural order of symbols.
pub open spec fn precedes(a: char, b: char) -> bool {
    a < b
}

/// Every symbol of `s` comes strictly before every later one: `s` is
/// ascending and holds no symbol twice.
pub open spec fn strictly_ascending(s: Seq<char>) -> bool {
    forall|i: int, j: int| 0 <= i < j < s.len() ==> precedes(#[trigger] s[i], #[trigger] s[j])
}

/// A valid alphabet: non-empty, ascending, duplicate-free.
pub open spec fn is_alphabet(s: Seq<char>) -> bool {
    s.len() > 0 && strictly_ascending(s)
}

proof fn lemma_agree_up_to(a: Seq<char>, b: Seq<char>, i: int)
    requires
        strictly_ascending(a),
        strictly_ascending(b),
        a.to_set() == b.to_set(),
        0 <= i < a.len(),
        i < b.len(),
    ensures
        forall|j: int| 0 <= j <= i ==> a[j] == b[j],
    decreases i,
{
    if i > 0 {
        lemma_agree_up_to(a, b, i - 1);
    }
    assert(a.to_set().contains(a[i]));
    assert(b.to_set().contains(b[i]));
    let m = choose|m: int| 0 <= m < b.len() && b[m] == a[i];
    let p = choose|p: int| 0 <= p < a.len() && a[p] == b[i];
    if m < i {
        assert(a[m] == b[m]);
        assert(precedes(a[m], a[i]));
    } else if m > i {
        assert(precedes(b[i], b[m]));
        if p < i {
            assert(a[p] == b[p]);
            assert(precedes(b[p], b[i]));
        } else if p > i {
            assert(precedes(a[i], a[p]));
        }
    }
}

/// Alphabets with the same symbols are the same sequence: the normal form
/// depends on the set of symbols alone, not on the form or order in which
/// they were given.
pub proof fn lemma_same_symbols_same_alphabet(a: Seq<char>, b: Seq<char>)
    requires
        is_alphabet(a),
        is_alphabet(b),
        a.to_set() == b.to_set(),
    ensures
        a == b,
{
    if a.len() <= b.len() {
        lemma_agree_up_to(a, b, a.len() - 1);
        if a.len() < b.len() {
            let x = b[a.len() as int];
            assert(b.to_set().contains(x));
            let m = choose|m: int| 0 <= m < a.len() && a[m] == x;
            assert(a[m] == b[m]);
            assert(precedes(b[m], b[a.len() as int]));
        }
    } else {
        lemma_agree_up_to(a, b, b.len() - 1);
        let x = a[b.len() as int];
        assert(a.to_set().contains(x));
        let m = choose|m: int| 0 <= m < b.len() && b[m] == x;
        assert(a[m] == b[m]);
        assert(precedes(a[m], a[b.len() as int]));
    }
    assert(a =~= b);
}

/// A validated alphabet: its symbols, distinct and in ascending order.
#[derive(Debug)]
pub struct CharSet {
    chars: Vec<char>,
}

impl View for CharSet {
    type V = Seq<char>;

    closed spec fn view(&self) -> Seq<char> {
        self.chars@
    }
}

impl CharSet {
    /// Holds of every alphabet that the constructors hand out.
    pub open spec fn wf(&self) -> bool {
        is_alphabet(self@)
    }

    /// Builds the alphabet of the characters of `s`.
    pub fn from_str(s: &str) -> (r: Result<CharSet, LehmerError>)
        ensures
            s@.len() == 0 ==> r == Err::<CharSet, LehmerError>(LehmerError::EmptyAlphabet),
            s@.len() > 0 && !s@.no_duplicates() ==> r == Err::<CharSet, LehmerError>(
                LehmerError::DuplicateSymbol,
            ),
            s@.len() > 0 && s@.no_duplicates() ==> r is Ok && r->Ok_0.wf() && r->Ok_0@.to_set()
                == s@.to_set(),
    {
        let mut chs: Vec<char> = Vec::new();
        for c in it: s.chars()
            invariant
                chs@ == it.seq().take(it.index() as int),
        {
            chs.push(c);
        }
        assert(chs@ == s@);
        CharSet::from(chs)
    }

    /// Builds the alphabet of the symbols of `s`.
    pub fn from_slice(s: &[char]) -> (r: Result<CharSet, LehmerError>)
        ensures
            s@.len() == 0 ==> r == Err::<CharSet, LehmerError>(LehmerError::EmptyAlphabet),
            s@.len() > 0 && !s@.no_duplicates() ==> r == Err::<CharSet, LehmerError>(
                LehmerError::DuplicateSymbol,
            ),
            s@.len() > 0 && s@.no_duplicates() ==> r is Ok && r->Ok_0.wf() && r->Ok_0@.to_set()
                == s@.to_set(),
    {
        let mut chs: Vec<char> = Vec::new();
        let mut i: usize = 0;
        while i < s.len()
            invariant
                i <= s@.len(),
                chs@ == s@.take(i as int),
            decreases s@.len() - i,
        {
            chs.push(s[i]);
            i += 1;
        }
        assert(chs@ == s@);
        CharSet::from(chs)
    }

    /// Builds the alphabet of the symbols of `chs`: sorts them, and fails
    /// when there are none or when some symbol occurs twice.
    pub fn from(chs: Vec<char>) -> (r: Result<CharSet, LehmerError>)
        ensures
            chs@.len() == 0 ==> r == Err::<CharSet, LehmerError>(LehmerError::EmptyAlphabet),
            chs@.len() > 0 && !chs@.no_duplicates() ==> r == Err::<CharSet, LehmerError>(
                LehmerError::DuplicateSymbol,
            ),
            chs@.len() > 0 && chs@.no_duplicates() ==> r is Ok && r->Ok_0.wf() && r->Ok_0@.to_set()
                == chs@.to_set(),
    {
        if chs.len() == 0 {
            return Err(LehmerError::EmptyAlphabet);
        }
        let mut sorted: Vec<char> = Vec::new();
        let mut i: usize = 0;
        while i < chs.len()
            invariant
                i <= chs@.len(),
                strictly_ascending(sorted@),
                chs@.take(i as int).no_duplicates(),
                forall|x: char| sorted@.contains(x) <==> chs@.take(i as int).contains(x),
            decreases chs@.len() - i,
        {
            let c = chs[i];
            let mut j: usize = 0;
            while j < sorted.len() && sorted[j] < c
                invariant
                    i < chs@.len(),
                    c == chs@[i as int],
                    strictly_ascending(sorted@),
                    chs@.take(i as int).no_duplicates(),
                    forall|x: char| sorted@.contains(x) <==> chs@.take(i as int).contains(x),
                    j <= sorted@.len(),
                    forall|k: int| 0 <= k < j ==> precedes(#[trigger] sorted@[k], c),
                decreases sorted@.len() - j,
            {
                j += 1;
            }
            if j < sorted.len() && sorted[j] == c {
                proof {
                    assert(sorted@[j as int] == c);
                    assert(sorted@.contains(c));
                    let k = choose|k: int| 0 <= k < i && chs@.take(i as int)[k] == c;
                    assert(chs@.take(i as int).contains(c));
                    assert(chs@[k] == chs@[i as int]);
                }
                return Err(LehmerError::DuplicateSymbol);
            }
            proof {
                assert forall|k: int| j <= k < sorted@.len() implies precedes(
                    c,
                    #[trigger] sorted@[k],
                ) by {
                    if k > j {
                        assert(precedes(sorted@[j as int], sorted@[k]));
                    }
                }
                assert(!sorted@.contains(c)) by {
                    if sorted@.contains(c) {
                        let k = choose|k: int| 0 <= k < sorted@.len() && sorted@[k] == c;
                        if k < j {
                            assert(precedes(sorted@[k], c));
                        } else {
                            assert(precedes(c, sorted@[k]));
                        }
                    }
                }
                assert(!chs@.take(i as int).contains(c));
                assert(chs@.take(i as int + 1) == chs@.take(i as int).push(c));
            }
            let ghost before = sorted@;
            sorted.insert(j, c);
            proof {
                assert(sorted@ == before.insert(j as int, c));
                let pre = chs@.take(i as int);
                let next = chs@.take(i as int + 1);
                assert(next == pre.push(c));
                assert forall|x: char| sorted@.contains(x) implies #[trigger] next.contains(x) by {
                    let k = choose|k: int| 0 <= k < sorted@.len() && sorted@[k] == x;
                    if k == j {
                        assert(next[i as int] == x);
                    } else {
                        if k < j {
                            assert(before[k] == x);
                        } else {
                            assert(before[k - 1] == x);
                        }
                        assert(before.contains(x));
                        let m = choose|m: int| 0 <= m < pre.len() && pre[m] == x;
                        assert(next[m] == x);
                    }
                }
                assert forall|x: char| next.contains(x) implies #[trigger] sorted@.contains(x) by {
                    let m = choose|m: int| 0 <= m < next.len() && next[m] == x;
                    if m == i {
                        assert(sorted@[j as int] == x);
                    } else {
                        assert(pre[m] == x);
                        assert(before.contains(x));
                        let k = choose|k: int| 0 <= k < before.len() && before[k] == x;
                        if k < j {
                            assert(sorted@[k] == x);
                        } else {
                            assert(sorted@[k + 1] == x);
                        }
                    }
                }
            }
            i += 1;
        }
        proof {
            assert(chs@.take(chs@.len() as int) == chs@);
            assert(chs@.contains(chs@[0]));
            assert(sorted@.contains(chs@[0]));
            assert(sorted@.to_set() =~= chs@.to_set());
        }
        Ok(CharSet { chars: sorted })
    }

    /// The symbols, in ascending order.
    pub fn chars(&self) -> (r: &[char])
        ensures
            r@ == self@,
    {
        self.chars.as_slice()
    }

    /// The number of symbols of the alphabet.
    pub fn len(&self) -> (r: usize)
        ensures
            r == self@.len(),
    {
        self.chars.len()
    }
}

} // verus!
