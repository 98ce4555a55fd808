//! A dictionary of words, stored as a prefix tree.

use std::collections::BTreeMap;
use vstd::prelude::*;

verus! {

/// A node of a prefix tree: the words that continue from here.
///
/// A node records whether the characters that lead to it spell a word, and
/// holds one child for each character by which a stored word goes on. The
/// children are keyed by the character's scalar value.
#[derive(Debug, PartialEq)]
pub struct Dict {
    end: bool,
    next: BTreeMap<u32, Dict>,
}

/// The child that a list of children assigns to `c`: the last one listed
/// under that character.
pub open spec fn listed_child(children: Seq<(char, Dict)>, c: char) -> Option<Dict>
    decreases children.len(),
{
    if children.len() == 0 {
        None
    } else if children.last().0 == c {
        Some(children.last().1)
    } else {
        listed_child(children.drop_last(), c)
    }
}

/// Whether `word` is one of `words`.
pub open spec fn listed_word(words: Seq<&str>, word: Seq<char>) -> bool {
    exists|i: int| 0 <= i < words.len() && (#[trigger] words[i])@ == word
}

/// Whether one of `words` begins with `prefix`.
pub open spec fn listed_prefix(words: Seq<&str>, prefix: Seq<char>) -> bool {
    exists|i: int| 0 <= i < words.len() && prefix.is_prefix_of((#[trigger] words[i])@)
}

/// Distinct characters have distinct scalar values.
proof fn lemma_key_injective(a: char, b: char)
    ensures
        a as u32 == b as u32 ==> a == b,
{
    vstd::utf8::char_u32_cast(a, a as u32);
    vstd::utf8::char_u32_cast(b, b as u32);
}

impl Dict {
    /// Whether the characters that lead to this node spell a word.
    pub closed spec fn ends_word(&self) -> bool {
        self.end
    }

    /// The child of this node for `c`, if there is one.
    pub closed spec fn child_at(&self, c: char) -> Option<Dict> {
        if self.next@.contains_key(c as u32) {
            Some(self.next@[c as u32])
        } else {
            None
        }
    }

    /// The node reached from this one by following `prefix`, one child for
    /// each character, if every one of them exists.
    pub open spec fn walk(&self, prefix: Seq<char>) -> Option<Dict>
        decreases prefix.len(),
    {
        if prefix.len() == 0 {
            Some(*self)
        } else {
            match self.child_at(prefix[0]) {
                Some(child) => child.walk(prefix.drop_first()),
                None => None,
            }
        }
    }

    /// Whether the tree has a node for `prefix`.
    pub open spec fn has_prefix(&self, prefix: Seq<char>) -> bool {
        self.walk(prefix) is Some
    }

    /// Whether `word` is stored: following it ends at a node that ends a word.
    pub open spec fn contains(&self, word: Seq<char>) -> bool {
        self.walk(word) matches Some(node) && node.ends_word()
    }

    /// Whether this node ends no word and has no child.
    pub open spec fn is_empty(&self) -> bool {
        &&& !self.ends_word()
        &&& forall|c: char| self.child_at(c) is None
    }

    /// An empty node holds no word, and no prefix but the empty one.
    pub proof fn lemma_empty_holds_nothing(&self, word: Seq<char>)
        requires
            self.is_empty(),
        ensures
            !self.contains(word),
            self.has_prefix(word) <==> word.len() == 0,
    {
    }

    /// This node stands for the child of `parent` for `c`: it is that child,
    /// or it is empty where `parent` has none. Then it holds what `parent`
    /// holds below `c`.
    proof fn lemma_empty_or_same(&self, parent: &Dict, c: char, word: Seq<char>)
        requires
            match parent.child_at(c) {
                Some(node) => *self == node,
                None => self.is_empty(),
            },
        ensures
            self.contains(word) <==> parent.contains(seq![c] + word),
            word.len() > 0 ==> (self.has_prefix(word) <==> parent.has_prefix(seq![c] + word)),
    {
        let full = seq![c] + word;
        assert(full.drop_first() =~= word);
        if parent.child_at(c) is None {
            self.lemma_empty_holds_nothing(word);
        }
    }

    /// A word that begins with `c` is stored exactly where the child for `c`
    /// exists and stores the rest of the word.
    pub proof fn lemma_child_words(&self, c: char, rest: Seq<char>)
        ensures
            self.contains(seq![c] + rest) <==> (self.child_at(c) matches Some(node)
                && node.contains(rest)),
            self.has_prefix(seq![c] + rest) <==> (self.child_at(c) matches Some(node)
                && node.has_prefix(rest)),
    {
        let word = seq![c] + rest;
        assert(word.drop_first() =~= rest);
    }

    /// The empty dictionary.
    pub fn new() -> (d: Dict)
        ensures
            d.is_empty(),
    {
        Dict { end: false, next: BTreeMap::new() }
    }

    /// Whether the characters that lead to this node spell a word.
    pub fn is_word_end(&self) -> (b: bool)
        ensures
            b == self.ends_word(),
    {
        self.end
    }

    /// The child of this node for `c`, if there is one.
    pub fn child(&self, c: char) -> (r: Option<&Dict>)
        ensures
            r is Some <==> self.child_at(c) is Some,
            r matches Some(node) ==> self.child_at(c) == Some(*node),
    {
        let key: u32 = c as u32;
        self.next.get(&key)
    }

    /// Stores `word`: follows its characters from this node, one child for
    /// each, creating the children that are missing, and marks the node
    /// reached as the end of a word. Returns the dictionary.
    ///
    /// Afterwards the dictionary holds `word` and the words it held before,
    /// and has a node for each prefix of `word` beside the nodes it had.
    pub fn add_word(&mut self, word: &str) -> (r: &Dict)
        ensures
            final(self).contains(word@),
            forall|w: Seq<char>| final(self).contains(w) <==> old(self).contains(w) || w == word@,
            forall|p: Seq<char>|
                final(self).has_prefix(p) <==> old(self).has_prefix(p) || p.is_prefix_of(word@),
            *r == *final(self),
    {
        let mut chars: Vec<char> = Vec::new();
        for c in it: word.chars()
            invariant
                it.seq() == word@,
                chars@ == it.seq().take(it.index()),
        {
            chars.push(c);
        }
        self.insert_from(&chars, 0);
        assert(chars@.skip(0) =~= word@);
        self
    }

    /// The dictionary of the given words: what adding each of them to the
    /// empty dictionary gives.
    pub fn from_words(words: &[&str]) -> (d: Dict)
        ensures
            forall|w: Seq<char>| d.contains(w) <==> listed_word(words@, w),
            forall|p: Seq<char>| d.has_prefix(p) <==> p.len() == 0 || listed_prefix(words@, p),
    {
        let mut dict = Dict::new();
        let mut i: usize = 0;
        proof {
            assert forall|w: Seq<char>| !dict.contains(w) && (dict.has_prefix(w) <==> w.len()
                == 0) by {
                dict.lemma_empty_holds_nothing(w);
            }
        }
        while i < words.len()
            invariant
                i <= words@.len(),
                forall|w: Seq<char>| dict.contains(w) <==> listed_word(words@.take(i as int), w),
                forall|p: Seq<char>|
                    dict.has_prefix(p) <==> p.len() == 0 || listed_prefix(
                        words@.take(i as int),
                        p,
                    ),
            decreases words@.len() - i,
        {
            let ghost before = words@.take(i as int);
            let ghost now = words@.take(i as int + 1);
            dict.add_word(words[i]);
            proof {
                assert forall|w: Seq<char>| listed_word(now, w) <==> listed_word(before, w) || w
                    == words@[i as int]@ by {
                    if w == words@[i as int]@ {
                        assert(now[i as int]@ == w);
                    }
                }
                assert forall|p: Seq<char>| listed_prefix(now, p) <==> listed_prefix(before, p)
                    || p.is_prefix_of(words@[i as int]@) by {
                    if p.is_prefix_of(words@[i as int]@) {
                        assert(p.is_prefix_of(now[i as int]@));
                    }
                }
            }
            i += 1;
        }
        proof {
            assert(words@.take(words@.len() as int) =~= words@);
        }
        dict
    }

    /// Stores the part of `word` that starts at index `from`.
    fn insert_from(&mut self, word: &Vec<char>, from: usize)
        requires
            from <= word@.len(),
        ensures
            forall|w: Seq<char>|
                final(self).contains(w) <==> old(self).contains(w) || w == word@.skip(from as int),
            forall|p: Seq<char>|
                final(self).has_prefix(p) <==> old(self).has_prefix(p) || p.is_prefix_of(
                    word@.skip(from as int),
                ),
        decreases word@.len() - from,
    {
        let ghost rest = word@.skip(from as int);
        if from == word.len() {
            self.end = true;
            proof {
                assert forall|w: Seq<char>| self.contains(w) <==> old(self).contains(w) || w
                    == rest by {
                    if w.len() == 0 {
                        assert(w =~= rest);
                    }
                }
            }
        } else {
            let c = word[from];
            let key: u32 = c as u32;
            let mut child = match self.next.remove(&key) {
                Some(node) => node,
                None => Dict::new(),
            };
            let ghost child_before = child;
            child.insert_from(word, from + 1);
            self.next.insert(key, child);
            proof {
                let tail = word@.skip(from as int + 1);
                assert(rest.drop_first() =~= tail);
                assert forall|p: Seq<char>| p.len() > 0 implies (p.is_prefix_of(rest) <==> p[0] == c
                    && p.drop_first().is_prefix_of(tail)) by {
                    if p[0] == c && p.drop_first().is_prefix_of(tail) {
                        assert(p =~= rest.subrange(0, p.len() as int)) by {
                            assert forall|i: int| 0 <= i < p.len() implies p[i] == rest[i] by {
                                if i > 0 {
                                    assert(p[i] == p.drop_first()[i - 1]);
                                }
                            }
                        }
                    }
                }
                assert forall|p: Seq<char>| p.len() > 0 implies (p == rest <==> p[0] == c
                    && p.drop_first() == tail) by {}
                assert forall|p: Seq<char>| self.has_prefix(p) <==> old(self).has_prefix(p)
                    || p.is_prefix_of(rest) by {
                    if p.len() > 0 {
                        lemma_key_injective(p[0], c);
                        child_before.lemma_empty_or_same(old(self), c, p.drop_first());
                    }
                }
                assert forall|w: Seq<char>| self.contains(w) <==> old(self).contains(w) || w
                    == rest by {
                    if w.len() > 0 {
                        lemma_key_injective(w[0], c);
                        child_before.lemma_empty_or_same(old(self), c, w.drop_first());
                    }
                }
            }
        }
    }

    /// A node with the given flag and children. Where a character is listed
    /// more than once, its last child stays.
    pub fn from_parts(end: bool, children: Vec<(char, Dict)>) -> (d: Dict)
        ensures
            d.ends_word() == end,
            forall|c: char| d.child_at(c) == listed_child(children@, c),
    {
        let mut node = Dict { end, next: BTreeMap::new() };
        for item in it: children
            invariant
                it.seq() == children@,
                node.end == end,
                forall|c: char| node.child_at(c) == listed_child(it.seq().take(it.index()), c),
        {
            let ghost before = it.seq().take(it.index());
            let ghost old_node = node;
            let (c, child) = item;
            let key: u32 = c as u32;
            node.next.insert(key, child);
            proof {
                let now = it.seq().take(it.index() + 1);
                assert(now.drop_last() =~= before);
                assert forall|x: char| node.child_at(x) == listed_child(now, x) by {
                    if x != c {
                        lemma_key_injective(x, c);
                        assert(node.child_at(x) == old_node.child_at(x));
                    }
                }
            }
        }
        proof {
            assert(children@.take(children@.len() as int) =~= children@);
        }
        node
    }
}

} // verus!
