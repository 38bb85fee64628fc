//! A trie of keywords.
//!
//! The trie is read as a map from paths to marks: a path is in the map
//! where the trie holds a node for it, and its mark says whether a word
//! ends there. The empty path stands for the root.

use vstd::prelude::*;
use vstd::slice::*;
use vstd::string::*;
use vstd::std_specs::iter::IteratorSpec;

verus! {

/// The characters of a text, in order.
fn chars_of(word: &str) -> (chars: Vec<char>)
    ensures
        chars@ == word@,
{
    broadcast use {axiom_spec_iter, next_postcondition};

    let mut chars: Vec<char> = Vec::new();
    let mut rest = word.chars();
    loop
        invariant
            chars@ + rest.remaining() == word@,
            rest.decrease() is Some,
        ensures
            chars@ == word@,
        decreases rest.decrease()->0,
    {
        match rest.next() {
            Some(c) => {
                chars.push(c);
            },
            None => {
                break ;
            },
        }
    }
    chars
}

/// A node of the trie. Its children are kept in the order in which they
/// were added; a character is looked up among them from the front.
#[derive(Debug)]
pub struct Node {
    token: char,
    is_word: bool,
    children: Vec<Node>,
}

/// The place of the first node from `from` on whose token is `c`, or the
/// number of nodes where there is none.
spec fn first_with(children: Seq<Node>, c: char, from: int) -> int
    decreases children.len() - from,
{
    if from < 0 || from >= children.len() {
        children.len() as int
    } else if children[from].token == c {
        from
    } else {
        first_with(children, c, from + 1)
    }
}

/// The mark of the node that `path` leads to from `node`, if there is one.
spec fn lookup(node: Node, path: Seq<char>) -> Option<bool>
    decreases path.len(),
{
    if path.len() == 0 {
        Some(node.is_word)
    } else {
        let j = first_with(node.children@, path[0], 0);
        if j < node.children@.len() {
            lookup(node.children@[j], path.drop_first())
        } else {
            None
        }
    }
}

/// The mark at `path` once the nodes for `rest` were added below a node at
/// `depth`: a node that was there keeps its mark, and a new one is marked
/// where its depth is the length that the word was given with.
spec fn lookup_after(
    before: Option<bool>,
    path: Seq<char>,
    rest: Seq<char>,
    depth: nat,
    byte_len: nat,
) -> Option<bool> {
    if before is Some {
        before
    } else if 0 < path.len() <= rest.len() && path == rest.take(path.len() as int) {
        Some(depth + path.len() == byte_len)
    } else {
        None
    }
}

/// A search ends at a node with the token looked for, or behind the last
/// node.
proof fn lemma_first_with_found(children: Seq<Node>, c: char, from: int)
    requires
        0 <= from <= children.len(),
    ensures
        from <= first_with(children, c, from) <= children.len(),
        first_with(children, c, from) < children.len() ==> children[first_with(
            children,
            c,
            from,
        )].token == c,
    decreases children.len() - from,
{
    if from < children.len() && children[from].token != c {
        lemma_first_with_found(children, c, from + 1);
    }
}

/// Nodes with the same tokens, place by place, are searched alike.
proof fn lemma_first_with_same_tokens(a: Seq<Node>, b: Seq<Node>, c: char, from: int)
    requires
        a.len() == b.len(),
        forall|k: int| 0 <= k < a.len() ==> a[k].token == b[k].token,
    ensures
        first_with(a, c, from) == first_with(b, c, from),
    decreases a.len() - from,
{
    if 0 <= from < a.len() && a[from].token != c {
        lemma_first_with_same_tokens(a, b, c, from + 1);
    }
}

/// A node added at the end is found by its token where no earlier node has
/// it, and changes no other search.
proof fn lemma_first_with_push(a: Seq<Node>, node: Node, c: char, from: int)
    requires
        0 <= from <= a.len(),
    ensures
        first_with(a, c, from) < a.len() ==> first_with(a.push(node), c, from) == first_with(
            a,
            c,
            from,
        ),
        first_with(a, c, from) >= a.len() && node.token == c ==> first_with(
            a.push(node),
            c,
            from,
        ) == a.len(),
        first_with(a, c, from) >= a.len() && node.token != c ==> first_with(
            a.push(node),
            c,
            from,
        ) == a.len() + 1,
    decreases a.len() - from,
{
    if from < a.len() {
        if a[from].token != c {
            lemma_first_with_push(a, node, c, from + 1);
        }
    } else {
        assert(first_with(a.push(node), c, from + 1) == a.len() + 1);
    }
}

/// A path that starts as a word does is a beginning of the word exactly
/// where what follows its first character is a beginning of what follows
/// the word's.
proof fn lemma_beginning_below(path: Seq<char>, word: Seq<char>)
    requires
        path.len() > 0,
        word.len() > 0,
        path[0] == word[0],
    ensures
        (path.len() <= word.len() && path == word.take(path.len() as int)) <==> (path.len() - 1
            <= word.len() - 1 && path.drop_first() == word.drop_first().take(path.len() - 1)),
        path.len() == 1 ==> path == word.take(1),
{
    if path.len() == 1 {
        assert(path =~= word.take(1));
    }
    if path.len() <= word.len() {
        let below = path.drop_first();
        let word_below = word.drop_first();
        if path == word.take(path.len() as int) {
            assert(below =~= word_below.take(below.len() as int));
        }
        if below == word_below.take(below.len() as int) {
            assert forall|k: int| 0 <= k < path.len() implies path[k] == word[k] by {
                if k > 0 {
                    assert(path[k] == below[k - 1]);
                }
            }
            assert(path =~= word.take(path.len() as int));
        }
    }
}

impl Node {
    /// The character that leads to this node.
    pub closed spec fn token(&self) -> char {
        self.token
    }

    /// Whether a word ends at this node.
    pub closed spec fn is_word(&self) -> bool {
        self.is_word
    }

    /// The number of nodes directly below this one.
    pub closed spec fn child_count(&self) -> nat {
        self.children@.len()
    }

    /// A node without children.
    pub fn new(token: char, is_word: bool) -> (r: Self)
        ensures
            r.token() == token,
            r.is_word() == is_word,
            r.child_count() == 0,
    {
        Node { token, is_word, children: Vec::new() }
    }

    /// The place of the first child whose token is `c`, or the number of
    /// children where there is none.
    fn find(&self, c: char) -> (j: usize)
        ensures
            j == first_with(self.children@, c, 0),
            j <= self.children@.len(),
    {
        let mut j: usize = 0;
        while j < self.children.len() && self.children[j].token != c
            invariant
                j <= self.children@.len(),
                first_with(self.children@, c, 0) == first_with(self.children@, c, j as int),
            decreases self.children@.len() - j,
        {
            j += 1;
        }
        j
    }

    /// Adds the nodes for `chars` from place `i` on below this node, as far
    /// as they are not there.
    fn insert_from(&mut self, chars: &Vec<char>, i: usize, byte_len: usize)
        requires
            i <= chars.len(),
        ensures
            final(self).token == old(self).token,
            forall|path: Seq<char>|
                lookup(*final(self), path) == lookup_after(
                    #[trigger] lookup(*old(self), path),
                    path,
                    chars@.subrange(i as int, chars.len() as int),
                    i as nat,
                    byte_len as nat,
                ),
        decreases chars.len() - i,
    {
        let ghost rest = chars@.subrange(i as int, chars.len() as int);
        if i >= chars.len() {
            return ;
        }
        let c = chars[i];
        let j = self.find(c);
        let ghost found = j < self.children@.len();
        proof {
            lemma_first_with_found(self.children@, c, 0);
        }
        if j == self.children.len() {
            self.children.push(Node::new(c, i + 1 == byte_len));
            proof {
                lemma_first_with_push(old(self).children@, self.children@[j as int], c, 0);
            }
        }
        let ghost mid = *self;
        let mut child = self.children.remove(j);
        let ghost child_before = child;
        child.insert_from(chars, i + 1, byte_len);
        self.children.insert(j, child);
        proof {
            assert forall|path: Seq<char>|
                lookup(*self, path) == lookup_after(
                    #[trigger] lookup(*old(self), path),
                    path,
                    rest,
                    i as nat,
                    byte_len as nat,
                ) by {
                if path.len() > 0 {
                    // The children carry the tokens they had, so a search
                    // among them ends where it did before the child changed.
                    lemma_first_with_same_tokens(mid.children@, self.children@, path[0], 0);
                    lemma_first_with_found(mid.children@, path[0], 0);
                    lemma_first_with_found(old(self).children@, path[0], 0);
                    if !found {
                        lemma_first_with_push(
                            old(self).children@,
                            mid.children@[j as int],
                            path[0],
                            0,
                        );
                    }
                    if path[0] == c {
                        // The path goes on below the child that was worked on.
                        let below = path.drop_first();
                        assert(lookup(*self, path) == lookup_after(
                            lookup(child_before, below),
                            below,
                            rest.drop_first(),
                            (i + 1) as nat,
                            byte_len as nat,
                        )) by {
                            assert(chars@.subrange(i + 1, chars.len() as int) =~= rest.drop_first());
                        }
                        if found {
                            assert(lookup(*old(self), path) == lookup(child_before, below));
                        } else {
                            // the child is new, and has no children
                            assert(lookup(*old(self), path) is None);
                            assert(lookup(child_before, below) == if below.len() == 0 {
                                Some(i + 1 == byte_len)
                            } else {
                                None
                            });
                        }
                        lemma_beginning_below(path, rest);
                    } else {
                        // The path goes on below a child that is as it was,
                        // and the word does not start as the path does.
                        assert(lookup(*self, path) == lookup(*old(self), path));
                        assert(rest[0] == c);
                    }
                }
            }
        }
    }
}

/// A set of words, kept character by character.
#[derive(Debug)]
pub struct Trie {
    root: Node,
}

impl View for Trie {
    type V = Map<Seq<char>, bool>;

    closed spec fn view(&self) -> Map<Seq<char>, bool> {
        Map::new(
            |path: Seq<char>| lookup(self.root, path) is Some,
            |path: Seq<char>| lookup(self.root, path)->0,
        )
    }
}

/// The trie without words: its root alone, unmarked.
pub open spec fn empty_trie() -> Map<Seq<char>, bool> {
    Map::new(|path: Seq<char>| path.len() == 0, |path: Seq<char>| false)
}

/// The trie after `word` was added with the length `byte_len`. Every
/// beginning of the word that had no node gets one; those that had one keep
/// their mark. A new node is marked where it lies as many characters deep
/// as `byte_len` says.
pub open spec fn with_word(trie: Map<Seq<char>, bool>, word: Seq<char>, byte_len: nat) -> Map<
    Seq<char>,
    bool,
> {
    Map::new(
        |path: Seq<char>|
            trie.contains_key(path) || (0 < path.len() <= word.len() && path == word.take(
                path.len() as int,
            )),
        |path: Seq<char>|
            if trie.contains_key(path) {
                trie[path]
            } else {
                path.len() == byte_len
            },
    )
}

/// The trie after the first `n` of `words` were added, each with its length
/// in bytes.
pub open spec fn with_words(trie: Map<Seq<char>, bool>, words: Seq<&str>, n: nat) -> Map<
    Seq<char>,
    bool,
>
    decreases n,
{
    if n == 0 {
        trie
    } else {
        let word = words[n - 1];
        with_word(with_words(trie, words, (n - 1) as nat), word@, word.spec_bytes().len())
    }
}

impl Trie {
    /// A trie that holds the given words, added in their order, or none.
    pub fn new(op_words: Option<&Vec<&str>>) -> (r: Self)
        ensures
            r@ == match op_words {
                Some(words) => with_words(empty_trie(), words@, words@.len()),
                None => empty_trie(),
            },
    {
        let mut trie = Trie { root: Node::new(' ', false) };
        match op_words {
            Some(words) => {
                let mut k: usize = 0;
                while k < words.len()
                    invariant
                        k <= words@.len(),
                        trie@ == with_words(empty_trie(), words@, k as nat),
                    decreases words@.len() - k,
                {
                    trie.insert_word(words[k]);
                    k += 1;
                }
                trie
            },
            None => trie,
        }
    }

    /// Adds a word. A character that has no node yet gets one, marked as
    /// the end of a word where it is the last character of a word whose
    /// characters take one byte each. Nodes that are there are left as they
    /// are: a word that is the beginning of an earlier one is not marked.
    pub fn insert_word(&mut self, word: &str)
        ensures
            final(self)@ == with_word(old(self)@, word@, word.spec_bytes().len()),
    {
        let chars = chars_of(word);
        let byte_len = word.as_bytes().len();
        self.root.insert_from(&chars, 0, byte_len);
        proof {
            assert(chars@.subrange(0, chars.len() as int) =~= word@);
            let grown = with_word(old(self)@, word@, word.spec_bytes().len());
            assert forall|path: Seq<char>| #[trigger]
                self@.contains_key(path) == grown.contains_key(path) && (self@.contains_key(path)
                    ==> self@[path] == grown[path]) by {
                let before = lookup(old(self).root, path);
                assert(lookup(self.root, path) == lookup_after(
                    before,
                    path,
                    word@,
                    0,
                    byte_len as nat,
                ));
            }
        }
    }

    /// Whether the trie holds a node for `word` that is marked as the end
    /// of a word.
    pub fn contains_word(&self, word: &str) -> (r: bool)
        ensures
            r == (self@.contains_key(word@) && self@[word@]),
    {
        let chars = chars_of(word);
        let mut node = &self.root;
        let mut i: usize = 0;
        assert(chars@.subrange(0, chars.len() as int) =~= word@);
        while i < chars.len()
            invariant
                i <= chars.len(),
                chars@ == word@,
                lookup(self.root, word@) == lookup(
                    *node,
                    chars@.subrange(i as int, chars.len() as int),
                ),
            decreases chars.len() - i,
        {
            let ghost rest = chars@.subrange(i as int, chars.len() as int);
            let j = node.find(chars[i]);
            if j == node.children.len() {
                return false;
            }
            node = &node.children[j];
            i += 1;
            assert(chars@.subrange(i as int, chars.len() as int) =~= rest.drop_first());
        }
        node.is_word
    }
}

} // verus!
