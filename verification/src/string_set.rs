//! Sets of strings, kept in the order of their bytes.

use crate::types::{
    bytes_before, bytes_precede, lemma_bytes_asymmetric, lemma_bytes_transitive,
    lemma_bytes_trichotomy,
};
use vstd::prelude::*;
use vstd::utf8::{encode_utf8, encode_utf8_decode_utf8};

verus! {

/// `a` comes strictly before `b` in the order of strings: that of their
/// bytes.
pub open spec fn text_precedes(a: Seq<char>, b: Seq<char>) -> bool {
    bytes_precede(encode_utf8(a), encode_utf8(b))
}

/// Of two strings, either they are equal or exactly one precedes the other.
pub proof fn lemma_text_total_order(a: Seq<char>, b: Seq<char>)
    ensures
        a == b || text_precedes(a, b) || text_precedes(b, a),
        text_precedes(a, b) ==> a != b && !text_precedes(b, a),
{
    lemma_bytes_trichotomy(encode_utf8(a), encode_utf8(b));
    if encode_utf8(a) == encode_utf8(b) {
        encode_utf8_decode_utf8(a);
        encode_utf8_decode_utf8(b);
    }
    if text_precedes(a, b) {
        lemma_bytes_asymmetric(encode_utf8(a), encode_utf8(b));
    }
}

/// The order of strings is transitive.
pub proof fn lemma_text_precedes_transitive(a: Seq<char>, b: Seq<char>, c: Seq<char>)
    requires
        text_precedes(a, b),
        text_precedes(b, c),
    ensures
        text_precedes(a, c),
{
    lemma_bytes_transitive(encode_utf8(a), encode_utf8(b), encode_utf8(c));
}

/// Decides the order of strings.
pub fn text_before(a: &String, b: &String) -> (r: bool)
    ensures
        r == text_precedes(a@, b@),
{
    bytes_before(a.as_str().as_bytes(), b.as_str().as_bytes())
}

/// Each string of `s` precedes all that follow it.
pub open spec fn texts_ascending(s: Seq<Seq<char>>) -> bool {
    forall|i: int, j: int| 0 <= i < j < s.len() ==> text_precedes(#[trigger] s[i], #[trigger] s[j])
}

/// `out` lists exactly the strings of `set`, in ascending order.
pub open spec fn lists_texts(set: Set<Seq<char>>, out: Seq<Seq<char>>) -> bool {
    texts_ascending(out) && out.to_set() == set
}

/// The strings of `v` as sequences of characters.
pub open spec fn texts_of(v: Seq<String>) -> Seq<Seq<char>> {
    Seq::new(v.len(), |i: int| v[i]@)
}

/// A set of strings. The strings are kept by ascending order, each once.
#[derive(Clone, Debug, PartialEq, Eq)]
pub struct StringSet {
    pub items: Vec<String>,
}

impl View for StringSet {
    type V = Set<Seq<char>>;

    open spec fn view(&self) -> Set<Seq<char>> {
        texts_of(self.items@).to_set()
    }
}

impl StringSet {
    /// The strings ascend.
    pub open spec fn wf(self) -> bool {
        texts_ascending(texts_of(self.items@))
    }

    /// The empty set.
    pub fn new() -> (r: StringSet)
        ensures
            r.wf(),
            r@ == Set::<Seq<char>>::empty(),
    {
        let r = StringSet { items: Vec::new() };
        proof {
            assert(r@ =~= Set::<Seq<char>>::empty());
        }
        r
    }

    /// Decides whether the set is well-formed.
    pub fn is_wf(&self) -> (r: bool)
        ensures
            r == self.wf(),
    {
        if self.items.len() == 0 {
            return true;
        }
        let ghost texts = texts_of(self.items@);
        let mut i: usize = 1;
        while i < self.items.len()
            invariant
                texts == texts_of(self.items@),
                1 <= i <= self.items.len(),
                forall|a: int, b: int|
                    0 <= a < b < i ==> text_precedes(#[trigger] texts[a], #[trigger] texts[b]),
            decreases self.items.len() - i,
        {
            if !text_before(&self.items[i - 1], &self.items[i]) {
                proof {
                    assert(!text_precedes(texts[i - 1], texts[i as int]));
                }
                return false;
            }
            proof {
                assert forall|a: int, b: int| 0 <= a < b < i + 1 implies text_precedes(
                    #[trigger] texts[a],
                    #[trigger] texts[b],
                ) by {
                    if b == i && a < i - 1 {
                        assert(text_precedes(texts[a], texts[i - 1]));
                        lemma_text_precedes_transitive(texts[a], texts[i - 1], texts[i as int]);
                    }
                }
            }
            i += 1;
        }
        true
    }

    /// The index of `s`, if the set holds it.
    pub fn find(&self, s: &String) -> (r: Option<usize>)
        ensures
            match r {
                Some(i) => i < self.items.len() && self.items@[i as int]@ == s@ && self@.contains(s@),
                None => !self@.contains(s@),
            },
    {
        let ghost texts = texts_of(self.items@);
        let mut i: usize = 0;
        while i < self.items.len()
            invariant
                texts == texts_of(self.items@),
                i <= self.items.len(),
                forall|j: int| 0 <= j < i ==> texts[j] != s@,
            decreases self.items.len() - i,
        {
            if self.items[i] == *s {
                proof {
                    assert(texts[i as int] == s@);
                    assert(texts.contains(s@));
                }
                return Some(i);
            }
            i += 1;
        }
        proof {
            if texts.contains(s@) {
                let k = choose|k: int| 0 <= k < texts.len() && texts[k] == s@;
                assert(texts[k] != s@);
            }
        }
        None
    }

    /// Whether the set holds `s`.
    pub fn contains(&self, s: &String) -> (r: bool)
        ensures
            r == self@.contains(s@),
    {
        self.find(s).is_some()
    }

    /// Adds `s`. Returns whether `s` was new to the set.
    pub fn insert(&mut self, s: String) -> (r: bool)
        requires
            old(self).wf(),
        ensures
            final(self).wf(),
            final(self)@ == old(self)@.insert(s@),
            r == !old(self)@.contains(s@),
            !r ==> *final(self) == *old(self),
    {
        if self.contains(&s) {
            proof {
                assert(self@.insert(s@) =~= self@);
            }
            return false;
        }
        let ghost before = texts_of(self.items@);
        let mut p: usize = 0;
        while p < self.items.len() && text_before(&self.items[p], &s)
            invariant
                p <= self.items.len(),
                *self == *old(self),
                before == texts_of(self.items@),
                forall|k: int| 0 <= k < p ==> text_precedes(#[trigger] before[k], s@),
            decreases self.items.len() - p,
        {
            p += 1;
        }
        let ghost text = s@;
        self.items.insert(p, s);
        proof {
            let after = texts_of(self.items@);
            assert(after =~= before.insert(p as int, text));
            assert forall|x: int, y: int| 0 <= x < y < after.len() implies text_precedes(
                #[trigger] after[x],
                #[trigger] after[y],
            ) by {
                if y < p {
                    assert(text_precedes(before[x], before[y]));
                } else if y == p {
                    assert(text_precedes(before[x], text));
                } else if x > p {
                    assert(text_precedes(before[x - 1], before[y - 1]));
                } else if x == p {
                    assert(!text_precedes(before[p as int], text));
                    assert(before.contains(before[p as int]));
                    lemma_text_total_order(text, before[p as int]);
                    if y - 1 > p {
                        assert(text_precedes(before[p as int], before[y - 1]));
                        lemma_text_precedes_transitive(text, before[p as int], before[y - 1]);
                    }
                } else {
                    assert(text_precedes(before[x], before[y - 1]));
                }
            }
            assert forall|x: Seq<char>| after.to_set().contains(x) <==> before.to_set().insert(
                text,
            ).contains(x) by {
                if after.contains(x) {
                    let k = choose|k: int| 0 <= k < after.len() && after[k] == x;
                    if k < p {
                        assert(before[k] == x);
                    } else if k > p {
                        assert(before[k - 1] == x);
                    }
                }
                if before.contains(x) {
                    let k = choose|k: int| 0 <= k < before.len() && before[k] == x;
                    if k < p {
                        assert(after[k] == x);
                    } else {
                        assert(after[k + 1] == x);
                    }
                }
                if x == text {
                    assert(after[p as int] == x);
                }
            }
            assert(after.to_set() =~= before.to_set().insert(text));
        }
        true
    }

    /// Takes `s` out. Returns whether `s` was in the set.
    pub fn remove(&mut self, s: &String) -> (r: bool)
        requires
            old(self).wf(),
        ensures
            final(self).wf(),
            final(self)@ == old(self)@.remove(s@),
            r == old(self)@.contains(s@),
            !r ==> *final(self) == *old(self),
    {
        match self.find(s) {
            None => {
                proof {
                    assert(self@.remove(s@) =~= self@);
                }
                false
            },
            Some(i) => {
                let ghost before = texts_of(self.items@);
                self.items.remove(i);
                proof {
                    let after = texts_of(self.items@);
                    assert(after =~= before.remove(i as int));
                    assert forall|x: int, y: int| 0 <= x < y < after.len() implies text_precedes(
                        #[trigger] after[x],
                        #[trigger] after[y],
                    ) by {
                        let x2 = if x < i {
                            x
                        } else {
                            x + 1
                        };
                        let y2 = if y < i {
                            y
                        } else {
                            y + 1
                        };
                        assert(text_precedes(before[x2], before[y2]));
                    }
                    assert forall|x: Seq<char>| after.to_set().contains(x) <==> before.to_set().remove(
                        s@,
                    ).contains(x) by {
                        if after.contains(x) {
                            let k = choose|k: int| 0 <= k < after.len() && after[k] == x;
                            let k2 = if k < i {
                                k
                            } else {
                                k + 1
                            };
                            assert(before[k2] == x);
                            if k2 < i {
                                assert(text_precedes(before[k2], before[i as int]));
                                lemma_text_total_order(before[k2], before[i as int]);
                            } else {
                                assert(text_precedes(before[i as int], before[k2]));
                                lemma_text_total_order(before[i as int], before[k2]);
                            }
                        }
                        if before.contains(x) && x != s@ {
                            let k = choose|k: int| 0 <= k < before.len() && before[k] == x;
                            let k2 = if k < i {
                                k
                            } else {
                                k - 1
                            };
                            assert(after[k2] == x);
                        }
                    }
                    assert(after.to_set() =~= before.to_set().remove(s@));
                }
                true
            },
        }
    }

    /// The strings of the set, in ascending order.
    pub fn to_vec(&self) -> (r: Vec<String>)
        requires
            self.wf(),
        ensures
            lists_texts(self@, texts_of(r@)),
    {
        let mut out: Vec<String> = Vec::new();
        let mut i: usize = 0;
        while i < self.items.len()
            invariant
                i <= self.items.len(),
                out@.len() == i,
                forall|k: int| 0 <= k < i ==> (#[trigger] out@[k])@ == self.items@[k]@,
            decreases self.items.len() - i,
        {
            out.push(self.items[i].clone());
            i += 1;
        }
        proof {
            assert(texts_of(out@) =~= texts_of(self.items@));
        }
        out
    }
}

} // verus!
