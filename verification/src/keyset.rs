//! A set of texts.

use vstd::prelude::*;

use crate::order::{
    le_text, lemma_text_le_antisym, lemma_text_le_total, lemma_text_le_trans, text_le,
};
use crate::text::{same, texts};

verus! {

/// A set of texts, kept in ascending order.
#[derive(Debug)]
pub struct KeySet {
    pub keys: Vec<String>,
}

/// Strictly ascending.
pub open spec fn ascending(s: Seq<Seq<char>>) -> bool {
    forall|i: int, j: int|
        #![trigger s[i], s[j]]
        0 <= i < j < s.len() ==> text_le(s[i], s[j]) && s[i] != s[j]
}

impl View for KeySet {
    type V = Set<Seq<char>>;

    open spec fn view(&self) -> Set<Seq<char>> {
        texts(self.keys@).to_set()
    }
}

impl KeySet {
    /// The keys are in strictly ascending order.
    pub open spec fn wf(&self) -> bool {
        ascending(texts(self.keys@))
    }

    pub fn new() -> (r: KeySet)
        ensures
            r.wf(),
            r@ == Set::<Seq<char>>::empty(),
    {
        let r = KeySet { keys: Vec::new() };
        assert(r@ =~= Set::<Seq<char>>::empty());
        r
    }

    pub fn len(&self) -> (r: usize)
        requires
            self.wf(),
        ensures
            r == self@.len(),
            self@.finite(),
    {
        proof {
            let s = texts(self.keys@);
            assert(s.no_duplicates()) by {
                assert forall|i: int, j: int|
                    0 <= i < s.len() && 0 <= j < s.len() && i != j implies s[i] != s[j] by {
                    if i < j {
                        assert(text_le(s[i], s[j]) && s[i] != s[j]);
                    } else {
                        assert(text_le(s[j], s[i]) && s[j] != s[i]);
                    }
                }
            }
            s.unique_seq_to_set();
        }
        self.keys.len()
    }

    /// The position of the first key at or after `key`.
    fn position(&self, key: &str) -> (r: usize)
        requires
            self.wf(),
        ensures
            r <= self.keys.len(),
            forall|i: int|
                0 <= i < r ==> text_le(#[trigger] texts(self.keys@)[i], key@) && texts(
                    self.keys@,
                )[i] != key@,
            forall|i: int|
                r <= i < self.keys@.len() ==> text_le(key@, #[trigger] texts(self.keys@)[i]),
    {
        let ghost s = texts(self.keys@);
        let mut low: usize = 0;
        let mut high: usize = self.keys.len();
        while low < high
            invariant
                s == texts(self.keys@),
                ascending(s),
                low <= high <= self.keys.len(),
                forall|i: int| 0 <= i < low ==> text_le(#[trigger] s[i], key@) && s[i] != key@,
                forall|i: int| high <= i < s.len() ==> text_le(key@, #[trigger] s[i]),
            decreases high - low,
        {
            let middle: usize = low + (high - low) / 2;
            let at = self.keys[middle].as_str();
            assert(s[middle as int] == at@);
            proof {
                lemma_text_le_total(at@, key@);
            }
            if le_text(key, at) {
                proof {
                    assert forall|i: int| middle <= i < s.len() implies text_le(
                        key@,
                        #[trigger] s[i],
                    ) by {
                        if i > middle {
                            assert(text_le(s[middle as int], s[i]));
                            lemma_text_le_trans(key@, s[middle as int], s[i]);
                        }
                    }
                }
                high = middle;
            } else {
                proof {
                    assert forall|i: int| 0 <= i < middle + 1 implies text_le(
                        #[trigger] s[i],
                        key@,
                    ) && s[i] != key@ by {
                        if i < middle {
                            assert(text_le(s[i], s[middle as int]));
                            lemma_text_le_trans(s[i], s[middle as int], key@);
                            if s[i] == key@ {
                                assert(false);
                            }
                        }
                    }
                }
                low = middle + 1;
            }
        }
        low
    }

    /// Whether the set holds `key`.
    pub fn contains(&self, key: &str) -> (r: bool)
        requires
            self.wf(),
        ensures
            r == self@.contains(key@),
    {
        let ghost s = texts(self.keys@);
        let at: usize = self.position(key);
        if at < self.keys.len() && same(self.keys[at].as_str(), key) {
            assert(s[at as int] == key@);
            return true;
        }
        proof {
            assert forall|i: int| 0 <= i < s.len() implies s[i] != key@ by {
                if i > at {
                    assert(text_le(s[at as int], s[i]) && s[at as int] != s[i]);
                    assert(text_le(key@, s[at as int]));
                    if s[i] == key@ {
                        lemma_text_le_antisym(key@, s[at as int]);
                    }
                } else if i == at {
                    assert(s[i] == self.keys@[i]@);
                }
            }
        }
        false
    }

    /// Adds `key`, and says whether it was new.
    pub fn insert(&mut self, key: &str) -> (r: bool)
        requires
            old(self).wf(),
        ensures
            final(self).wf(),
            final(self)@ == old(self)@.insert(key@),
            r == !old(self)@.contains(key@),
    {
        let ghost s = texts(self.keys@);
        if self.contains(key) {
            assert(self@.insert(key@) =~= self@);
            return false;
        }
        let at: usize = self.position(key);
        self.keys.insert(at, key.to_owned());
        proof {
            let t = texts(self.keys@);
            assert(t =~= s.insert(at as int, key@));
            assert forall|k: Seq<char>| t.contains(k) <==> s.contains(k) || k == key@ by {
                if s.contains(k) {
                    let i = choose|i: int| 0 <= i < s.len() && s[i] == k;
                    if i < at {
                        assert(t[i] == k);
                    } else {
                        assert(t[i + 1] == k);
                    }
                }
                if k == key@ {
                    assert(t[at as int] == k);
                }
                if t.contains(k) {
                    let i = choose|i: int| 0 <= i < t.len() && t[i] == k;
                    if i < at {
                        assert(s[i] == k);
                    } else if i > at {
                        assert(s[i - 1] == k);
                    }
                }
            }
            assert(t.to_set() =~= s.to_set().insert(key@));
            assert forall|i: int, j: int|
                #![trigger t[i], t[j]]
                0 <= i < j < t.len() implies text_le(t[i], t[j]) && t[i] != t[j] by {
                let a = if i < at {
                    i
                } else {
                    i - 1
                };
                let b = if j < at {
                    j
                } else {
                    j - 1
                };
                if i == at {
                    assert(t[j] == s[b]);
                    assert(s.to_set().contains(s[b]));
                } else if j == at {
                    assert(t[i] == s[a]);
                } else {
                    assert(t[i] == s[a] && t[j] == s[b]);
                }
            }
        }
        true
    }

    /// Takes out every key.
    pub fn clear(&mut self)
        ensures
            final(self).wf(),
            final(self)@ == Set::<Seq<char>>::empty(),
    {
        self.keys = Vec::new();
        assert(self@ =~= Set::<Seq<char>>::empty());
    }
}

} // verus!
