//! A trie of strings.
//!
//! `["a", "cc", "ab"]` gives
//! `{'\0', false, [{'a', true, [{'b', true, []}]}, {'c', false, [{'c', true, []}]}]}`:
//! each node holds a character and whether a stored string ends there, and
//! its children hold the characters that may follow, each character once.
use vstd::prelude::*;

verus! {

broadcast use vstd::string::axiom_spec_iter;

#[derive(Debug, PartialEq, Eq)]
pub struct Trie {
    chr: char,
    has: bool,
    children: Vec<Trie>,
}

impl Clone for Trie {
    /// A copy of the whole tree, node for node.
    fn clone(&self) -> (r: Self)
        ensures
            r.same_tree(self),
        decreases self,
    {
        let mut children: Vec<Trie> = Vec::new();
        let mut i: usize = 0;
        while i < self.children.len()
            invariant
                i <= self.children@.len(),
                children@.len() == i,
                forall|j: int| 0 <= j < i ==> (#[trigger] children@[j]).same_tree(&self.children@[j]),
            decreases self.children@.len() - i,
        {
            let kid = self.children[i].clone();
            children.push(kid);
            i = i + 1;
        }
        Trie { chr: self.chr, has: self.has, children }
    }
}

/// The characters of the nodes in `children`, in order.
pub open spec fn labels(children: Seq<Trie>) -> Seq<char> {
    Seq::new(children.len(), |i: int| children[i].label())
}

/// The position of the first occurrence of `c` in `cs`, or -1.
pub open spec fn first_index(cs: Seq<char>, c: char) -> int
    decreases cs.len(),
{
    if cs.len() == 0 {
        -1
    } else if cs[0] == c {
        0
    } else {
        let r = first_index(cs.drop_first(), c);
        if r < 0 {
            -1
        } else {
            r + 1
        }
    }
}

impl Trie {
    /// The character of the node.
    pub closed spec fn label(&self) -> char {
        self.chr
    }

    /// The children of the node.
    pub closed spec fn kids(&self) -> Seq<Trie> {
        self.children@
    }

    /// Whether the string `w` is stored in the trie below this node: the
    /// empty string when a stored string ends here, and `c` followed by `v`
    /// when the child labelled `c` stores `v`.
    pub closed spec fn has_word(&self, w: Seq<char>) -> bool
        decreases w.len(),
    {
        if w.len() == 0 {
            self.has
        } else {
            let i = first_index(labels(self.children@), w[0]);
            0 <= i && self.children@[i].has_word(w.drop_first())
        }
    }

    /// No two children of a node carry the same character, at every node.
    pub closed spec fn well_formed(&self) -> bool
        decreases self,
    {
        &&& forall|i: int, j: int|
            0 <= i < j < self.children@.len() ==> self.children@[i].chr != self.children@[j].chr
        &&& forall|i: int| 0 <= i < self.children@.len() ==> (#[trigger] self.children@[i]).well_formed()
    }
}

/// The non-empty strings of `strs`, as sequences of characters, in order.
pub open spec fn words_of(strs: Seq<&str>) -> Seq<Seq<char>>
    decreases strs.len(),
{
    if strs.len() == 0 {
        Seq::empty()
    } else {
        let p = words_of(strs.drop_last());
        if strs.last()@.len() > 0 {
            p.push(strs.last()@)
        } else {
            p
        }
    }
}

/// The first characters of the non-empty words of `ws`, each once, in the
/// order in which they first appear.
pub open spec fn first_chars(ws: Seq<Seq<char>>) -> Seq<char>
    decreases ws.len(),
{
    if ws.len() == 0 {
        Seq::empty()
    } else {
        let p = first_chars(ws.drop_last());
        let w = ws.last();
        if w.len() > 0 && !p.contains(w[0]) {
            p.push(w[0])
        } else {
            p
        }
    }
}

/// What follows `c` in the words of `ws` that start with `c`, in order.
pub open spec fn tails(ws: Seq<Seq<char>>, c: char) -> Seq<Seq<char>>
    decreases ws.len(),
{
    if ws.len() == 0 {
        Seq::empty()
    } else {
        let p = tails(ws.drop_last(), c);
        let w = ws.last();
        if w.len() > 0 && w[0] == c {
            p.push(w.drop_first())
        } else {
            p
        }
    }
}

impl Trie {
    /// Whether a stored string ends at this node.
    pub closed spec fn marked(&self) -> bool {
        self.has
    }

    /// The node is the trie of the words `ws`: it is marked when `ws` holds
    /// the empty word; its children carry the first characters of the words,
    /// in the order in which they first appear; and the child carrying `c`
    /// is the trie of what follows `c` in the words that start with it.
    pub closed spec fn shaped(&self, ws: Seq<Seq<char>>) -> bool
        decreases self,
    {
        &&& self.has == ws.contains(Seq::<char>::empty())
        &&& labels(self.children@) == first_chars(ws)
        &&& forall|i: int|
            0 <= i < self.children@.len() ==> (#[trigger] self.children@[i]).shaped(
                tails(ws, self.children@[i].chr),
            )
    }

    /// The two tries are equal as `==` compares them: the same character and
    /// mark at every node, and the same children, element by element.
    pub closed spec fn same_tree(&self, other: &Trie) -> bool
        decreases self,
    {
        &&& self.chr == other.chr
        &&& self.has == other.has
        &&& self.children@.len() == other.children@.len()
        &&& forall|i: int|
            0 <= i < self.children@.len() ==> (#[trigger] self.children@[i]).same_tree(
                &other.children@[i],
            )
    }

    /// Every node below this one either has children or ends a stored
    /// string: no branch leads nowhere.
    pub closed spec fn no_dead_branches(&self) -> bool
        decreases self,
    {
        forall|i: int|
            0 <= i < self.children@.len() ==> {
                &&& (self.children@[i].children@.len() == 0 ==> self.children@[i].has)
                &&& (#[trigger] self.children@[i]).no_dead_branches()
            }
    }
}

/// Adding a word `u` at the end of `ws`.
pub proof fn lemma_push_word(ws: Seq<Seq<char>>, u: Seq<char>)
    ensures
        first_chars(ws.push(u)) == (if u.len() > 0 && !first_chars(ws).contains(u[0]) {
            first_chars(ws).push(u[0])
        } else {
            first_chars(ws)
        }),
        forall|c: char|
            #[trigger] tails(ws.push(u), c) == (if u.len() > 0 && u[0] == c {
                tails(ws, c).push(u.drop_first())
            } else {
                tails(ws, c)
            }),
        forall|x: Seq<char>| #[trigger] ws.push(u).contains(x) <==> (ws.contains(x) || x == u),
{
    assert(ws.push(u).drop_last() =~= ws);
    assert forall|x: Seq<char>| #[trigger] ws.push(u).contains(x) <==> (ws.contains(x) || x == u) by {
        if ws.contains(x) {
            let i = choose|i: int| 0 <= i < ws.len() && ws[i] == x;
            assert(ws.push(u)[i] == x);
        }
        if x == u {
            assert(ws.push(u)[ws.len() as int] == x);
        }
        if ws.push(u).contains(x) {
            let i = choose|i: int| 0 <= i < ws.push(u).len() && ws.push(u)[i] == x;
            if i < ws.len() {
                assert(ws[i] == x);
            }
        }
    }
}

/// No word starts with a character that is not among the first characters.
pub proof fn lemma_tails_absent(ws: Seq<Seq<char>>, c: char)
    requires
        !first_chars(ws).contains(c),
    ensures
        tails(ws, c) == Seq::<Seq<char>>::empty(),
    decreases ws.len(),
{
    if ws.len() > 0 {
        let p = first_chars(ws.drop_last());
        if p.contains(c) {
            let k = choose|k: int| 0 <= k < p.len() && p[k] == c;
            let w = ws.last();
            if w.len() > 0 && !p.contains(w[0]) {
                assert(first_chars(ws)[k] == c);
            }
        }
        lemma_tails_absent(ws.drop_last(), c);
        let w = ws.last();
        if w.len() > 0 && w[0] == c {
            if !p.contains(w[0]) {
                assert(first_chars(ws)[p.len() as int] == c);
            }
        }
    }
}

/// A first character is followed by at least one tail.
pub proof fn lemma_tails_present(ws: Seq<Seq<char>>, c: char)
    requires
        first_chars(ws).contains(c),
    ensures
        tails(ws, c).len() > 0,
    decreases ws.len(),
{
    if ws.len() > 0 {
        let p = first_chars(ws.drop_last());
        let w = ws.last();
        if p.contains(c) {
            lemma_tails_present(ws.drop_last(), c);
        } else {
            assert(first_chars(ws) != p);
            assert(w.len() > 0 && first_chars(ws) == p.push(w[0]));
            let k = choose|k: int| 0 <= k < first_chars(ws).len() && first_chars(ws)[k] == c;
            if k < p.len() {
                assert(p[k] == c);
            }
        }
    }
}

/// A non-empty word of `ws` puts its first character among the first
/// characters, and what follows it among the tails of that character.
pub proof fn lemma_member_word(ws: Seq<Seq<char>>, u: Seq<char>)
    requires
        ws.contains(u),
        u.len() > 0,
    ensures
        first_chars(ws).contains(u[0]),
        tails(ws, u[0]).contains(u.drop_first()),
    decreases ws.len(),
{
    let v = ws.drop_last();
    let w = ws.last();
    let p = first_chars(v);
    if w == u {
        if !p.contains(u[0]) {
            assert(first_chars(ws)[p.len() as int] == u[0]);
        } else {
            let k = choose|k: int| 0 <= k < p.len() && p[k] == u[0];
            assert(first_chars(ws)[k] == u[0]);
        }
        assert(tails(ws, u[0])[tails(v, u[0]).len() as int] == u.drop_first());
    } else {
        let i = choose|i: int| 0 <= i < ws.len() && ws[i] == u;
        assert(v[i] == u);
        lemma_member_word(v, u);
        let k = choose|k: int| 0 <= k < p.len() && p[k] == u[0];
        if w.len() > 0 && !p.contains(w[0]) {
            assert(first_chars(ws)[k] == u[0]);
        } else {
            assert(first_chars(ws)[k] == u[0]);
        }
        let t = tails(v, u[0]);
        let m = choose|m: int| 0 <= m < t.len() && t[m] == u.drop_first();
        assert(tails(ws, u[0])[m] == u.drop_first());
    }
}

/// Where there are no first characters, every word is empty.
pub proof fn lemma_no_first_chars(ws: Seq<Seq<char>>)
    requires
        first_chars(ws).len() == 0,
    ensures
        forall|i: int| 0 <= i < ws.len() ==> (#[trigger] ws[i]).len() == 0,
    decreases ws.len(),
{
    if ws.len() > 0 {
        let p = first_chars(ws.drop_last());
        lemma_no_first_chars(ws.drop_last());
        assert forall|i: int| 0 <= i < ws.len() implies (#[trigger] ws[i]).len() == 0 by {
            if i < ws.len() - 1 {
                assert(ws[i] == ws.drop_last()[i]);
            }
        }
    }
}

/// `first_index` finds the first occurrence, or reports that there is none.
pub proof fn lemma_first_index(cs: Seq<char>, c: char)
    ensures
        -1 <= first_index(cs, c) < cs.len(),
        first_index(cs, c) >= 0 ==> cs[first_index(cs, c)] == c,
        forall|j: int| 0 <= j < cs.len() && (j < first_index(cs, c) || first_index(cs, c) < 0) ==> cs[j] != c,
    decreases cs.len(),
{
    if cs.len() > 0 && cs[0] != c {
        lemma_first_index(cs.drop_first(), c);
        assert forall|j: int| 0 <= j < cs.len() && (j < first_index(cs, c) || first_index(cs, c) < 0) implies cs[j] != c by {
            if j > 0 {
                assert(cs[j] == cs.drop_first()[j - 1]);
            }
        }
    }
}

/// The first occurrence of `c` is the position `i` where `c` stands and
/// before which it does not.
proof fn lemma_first_index_at(cs: Seq<char>, c: char, i: int)
    requires
        0 <= i < cs.len(),
        cs[i] == c,
        forall|j: int| 0 <= j < i ==> cs[j] != c,
    ensures
        first_index(cs, c) == i,
{
    lemma_first_index(cs, c);
    if first_index(cs, c) < 0 {
        assert(cs[i] != c);
    }
}

/// When `c` does not occur in `cs`, `first_index` says so.
proof fn lemma_first_index_absent(cs: Seq<char>, c: char)
    requires
        forall|j: int| 0 <= j < cs.len() ==> cs[j] != c,
    ensures
        first_index(cs, c) == -1,
{
    lemma_first_index(cs, c);
    if first_index(cs, c) >= 0 {
        assert(cs[first_index(cs, c)] == c);
    }
}

/// The position of the first child of `children` labelled `c`, if any.
fn find_child(children: &Vec<Trie>, c: char) -> (r: Option<usize>)
    ensures
        match r {
            Some(i) => i == first_index(labels(children@), c) && i < children@.len(),
            None => first_index(labels(children@), c) == -1,
        },
{
    let n = children.len();
    let mut i: usize = 0;
    while i < n
        invariant
            n == children@.len(),
            0 <= i <= n,
            forall|j: int| 0 <= j < i ==> children@[j].chr != c,
        decreases n - i,
    {
        if children[i].chr == c {
            proof {
                lemma_first_index_at(labels(children@), c, i as int);
            }
            return Some(i);
        }
        i = i + 1;
    }
    proof {
        lemma_first_index_absent(labels(children@), c);
    }
    None
}

/// The characters of `s`, in order.
fn chars_of(s: &str) -> (r: Vec<char>)
    ensures
        r@ == s@,
{
    let mut r: Vec<char> = Vec::new();
    for c in it: s.chars()
        invariant
            r@ == it.seq().take(it.index() as int),
    {
        r.push(c);
    }
    r
}

impl Trie {
    /// A node labelled `c` with nothing stored below it.
    fn leaf(c: char) -> (r: Trie)
        ensures
            r.chr == c,
            !r.has,
            r.children@.len() == 0,
            forall|w: Seq<char>| !r.has_word(w),
            r.well_formed(),
            r.shaped(Seq::empty()),
    {
        let r = Trie { chr: c, has: false, children: Vec::new() };
        assert(labels(r.children@) =~= first_chars(Seq::<Seq<char>>::empty()));
        assert forall|w: Seq<char>| !r.has_word(w) by {
            if w.len() > 0 {
                lemma_first_index(labels(r.children@), w[0]);
            }
        }
        r
    }

    /// Stores `w[pos..]` below this node.
    fn insert(&mut self, w: &Vec<char>, pos: usize, Ghost(ws): Ghost<Seq<Seq<char>>>)
        requires
            pos <= w@.len(),
            old(self).well_formed(),
            old(self).shaped(ws),
        ensures
            final(self).chr == old(self).chr,
            final(self).well_formed(),
            final(self).shaped(ws.push(w@.skip(pos as int))),
            forall|u: Seq<char>| #[trigger] final(self).has_word(u) <==> (old(self).has_word(u) || u == w@.skip(pos as int)),
        decreases w@.len() - pos,
    {
        if pos == w.len() {
            self.has = true;
            proof {
                assert forall|u: Seq<char>| #[trigger] self.has_word(u) <==> (old(self).has_word(u) || u == w@.skip(pos as int)) by {
                    if u.len() == 0 {
                        assert(w@.skip(pos as int) =~= u);
                    }
                }
                let e = w@.skip(pos as int);
                assert(e =~= Seq::<char>::empty());
                lemma_push_word(ws, e);
                let ws2 = ws.push(e);
                assert(ws2.contains(Seq::<char>::empty()));
                assert forall|i: int| 0 <= i < self.children@.len() implies (#[trigger] self.children@[i]).shaped(
                    tails(ws2, self.children@[i].chr),
                ) by {
                    assert(tails(ws2, self.children@[i].chr) == tails(ws, self.children@[i].chr));
                }
            }
        } else {
            let c = w[pos];
            let ghost old_kids = self.children@;
            let idx = match find_child(&self.children, c) {
                Some(i) => i,
                None => {
                    let leaf = Trie::leaf(c);
                    self.children.push(leaf);
                    proof {
                        assert(labels(self.children@) =~= labels(old_kids).push(c));
                        lemma_first_index(labels(old_kids), c);
                        assert forall|j: int| 0 <= j < old_kids.len() implies old_kids[j].chr != c by {
                            assert(labels(old_kids)[j] == old_kids[j].chr);
                        }
                        lemma_first_index_at(labels(self.children@), c, old_kids.len() as int);
                    }
                    self.children.len() - 1
                },
            };
            let ghost mid = self.children@;
            proof {
                lemma_first_index(labels(mid), c);
                assert(mid[idx as int].chr == labels(mid)[idx as int]);
                assert(first_index(labels(mid), c) == idx);
                assert(mid.len() > old_kids.len() ==> first_index(labels(old_kids), c) == -1);
                assert(mid.len() == old_kids.len() ==> mid == old_kids);
                assert(mid.len() > old_kids.len() ==> mid == old_kids.push(mid[idx as int]) && idx == old_kids.len());
            }
            let ghost ws_c = tails(ws, c);
            proof {
                if mid.len() > old_kids.len() {
                    assert forall|j: int| 0 <= j < labels(old_kids).len() implies labels(old_kids)[j] != c by {
                        lemma_first_index(labels(old_kids), c);
                    }
                    lemma_tails_absent(ws, c);
                } else {
                    assert(labels(old_kids)[idx as int] == c);
                    assert(old_kids[idx as int].shaped(tails(ws, old_kids[idx as int].chr)));
                }
            }
            self.children[idx].insert(w, pos + 1, Ghost(ws_c));
            proof {
                let kids = self.children@;
                let u = w@.skip(pos as int);
                let ws2 = ws.push(u);
                assert(u[0] == c);
                assert(u.drop_first() =~= w@.skip(pos + 1));
                lemma_push_word(ws, u);
                assert(ws2.contains(Seq::<char>::empty()) == ws.contains(Seq::<char>::empty())) by {
                    if ws2.contains(Seq::<char>::empty()) && !ws.contains(Seq::<char>::empty()) {
                        assert(u.len() > 0);
                    }
                }
                assert(labels(kids) == first_chars(ws2)) by {
                    assert(labels(kids) =~= labels(mid));
                    if mid.len() > old_kids.len() {
                        assert(labels(mid) =~= labels(old_kids).push(c));
                        assert(!first_chars(ws).contains(c)) by {
                            lemma_first_index(labels(old_kids), c);
                            if first_chars(ws).contains(c) {
                                let k = choose|k: int| 0 <= k < first_chars(ws).len() && first_chars(ws)[k] == c;
                                assert(labels(old_kids)[k] == c);
                            }
                        }
                    } else {
                        assert(labels(old_kids)[idx as int] == c);
                    }
                }
                assert forall|i: int| 0 <= i < kids.len() implies (#[trigger] kids[i]).shaped(tails(ws2, kids[i].chr)) by {
                    if i == idx {
                        assert(tails(ws2, c) == ws_c.push(w@.skip(pos + 1)));
                    } else {
                        assert(kids[i] == mid[i]);
                        assert(i < old_kids.len());
                        assert(mid[i] == old_kids[i]);
                        assert(labels(mid)[i] == kids[i].chr);
                        assert(kids[i].chr != c) by {
                            if mid.len() > old_kids.len() {
                                lemma_first_index(labels(old_kids), c);
                                assert(labels(old_kids)[i] == old_kids[i].chr);
                            } else {
                                assert(old(self).well_formed());
                                assert(labels(old_kids)[idx as int] == c);
                                assert(old_kids[idx as int].chr == c);
                            }
                        }
                        assert(tails(ws2, kids[i].chr) == tails(ws, kids[i].chr));
                        assert(old_kids[i].shaped(tails(ws, old_kids[i].chr)));
                    }
                }
            }
            proof {
                let kids = self.children@;
                let new_child = kids[idx as int];
                assert(kids == mid.update(idx as int, new_child));
                assert(labels(kids) =~= labels(mid));
                assert forall|u: Seq<char>| #[trigger] self.has_word(u) <==> (old(self).has_word(u) || u == w@.skip(pos as int)) by {
                    if u.len() > 0 {
                        let d = u[0];
                        if d == c {
                            assert(self.has_word(u) == new_child.has_word(u.drop_first()));
                            assert(new_child.has_word(u.drop_first()) == (mid[idx as int].has_word(u.drop_first()) || u.drop_first() == w@.skip(pos + 1)));
                            if mid.len() > old_kids.len() {
                                assert(!old(self).has_word(u));
                                assert(!mid[idx as int].has_word(u.drop_first()));
                            } else {
                                assert(old(self).has_word(u) == mid[idx as int].has_word(u.drop_first()));
                            }
                            if u == w@.skip(pos as int) {
                                assert(u.drop_first() =~= w@.skip(pos + 1));
                            }
                            if u.drop_first() == w@.skip(pos + 1) {
                                assert(u.len() == w@.skip(pos as int).len());
                                assert forall|k: int| 0 <= k < u.len() implies u[k] == w@.skip(pos as int)[k] by {
                                    if k > 0 {
                                        assert(u[k] == u.drop_first()[k - 1]);
                                    }
                                }
                                assert(u =~= w@.skip(pos as int));
                            }
                        } else {
                            assert(u[0] != w@.skip(pos as int)[0]);
                            lemma_first_index_other(labels(old_kids), labels(mid), c, d);
                            lemma_first_index(labels(mid), d);
                            let j = first_index(labels(mid), d);
                            if j >= 0 {
                                assert(labels(mid)[j] == d);
                                assert(j != idx);
                                assert(kids[j] == mid[j]);
                                assert(j < old_kids.len());
                                assert(mid[j] == old_kids[j]);
                            }
                        }
                    } else {
                        assert(u != w@.skip(pos as int));
                    }
                }
                assert forall|i: int, j: int| 0 <= i < j < kids.len() implies kids[i].chr != kids[j].chr by {
                    assert(labels(kids)[i] == kids[i].chr && labels(kids)[j] == kids[j].chr);
                    if mid.len() > old_kids.len() && j == old_kids.len() {
                        lemma_first_index(labels(old_kids), c);
                        assert(labels(old_kids)[i] == old_kids[i].chr);
                    } else {
                        assert(kids[i].chr == old_kids[i].chr && kids[j].chr == old_kids[j].chr);
                    }
                }
            }
        }
    }
}

/// The strings of `strs` that are not empty.
pub open spec fn stored(strs: Seq<&str>, w: Seq<char>) -> bool {
    w.len() > 0 && exists|i: int| 0 <= i < strs.len() && (#[trigger] strs[i])@ == w
}

impl Trie {
    /// Builds the trie of the non-empty strings of `strs`; its root is
    /// labelled `'\0'`.
    pub fn new(strs: Vec<&str>) -> (r: Trie)
        ensures
            r.label() == '\0',
            r.well_formed(),
            r.shaped(words_of(strs@)),
            r.no_dead_branches(),
            forall|w: Seq<char>| #[trigger] r.has_word(w) <==> stored(strs@, w),
    {
        let r = Trie::build(strs);
        proof {
            lemma_no_dead_branches(r, words_of(strs@));
        }
        r
    }

    fn build(strs: Vec<&str>) -> (r: Trie)
        ensures
            r.label() == '\0',
            r.well_formed(),
            r.shaped(words_of(strs@)),
            forall|w: Seq<char>| #[trigger] r.has_word(w) <==> stored(strs@, w),
    {
        let mut root = Trie::leaf('\0');
        let n = strs.len();
        for k in 0..n
            invariant
                n == strs@.len(),
                root.chr == '\0',
                root.well_formed(),
                root.shaped(words_of(strs@.take(k as int))),
                forall|w: Seq<char>| #[trigger] root.has_word(w) <==> stored(strs@.take(k as int), w),
        {
            let cs = chars_of(strs[k]);
            let ghost before = root;
            let ghost ws = words_of(strs@.take(k as int));
            proof {
                assert(strs@.take(k + 1).drop_last() =~= strs@.take(k as int));
                assert(strs@.take(k + 1).last() == strs@[k as int]);
                assert(cs@.skip(0) =~= cs@);
            }
            if cs.len() > 0 {
                root.insert(&cs, 0, Ghost(ws));
            }
            proof {
                assert forall|w: Seq<char>| #[trigger] root.has_word(w) <==> stored(strs@.take(k + 1), w) by {
                    assert(cs@.skip(0) =~= cs@);
                    assert(strs@.take(k + 1)[k as int] == strs@[k as int]);
                    if stored(strs@.take(k as int), w) {
                        let i = choose|i: int| 0 <= i < k && (#[trigger] strs@.take(k as int)[i])@ == w;
                        assert(strs@.take(k + 1)[i] == strs@.take(k as int)[i]);
                    }
                    if stored(strs@.take(k + 1), w) {
                        let i = choose|i: int| 0 <= i < k + 1 && (#[trigger] strs@.take(k + 1)[i])@ == w;
                        if i < k {
                            assert(strs@.take(k + 1)[i] == strs@.take(k as int)[i]);
                        }
                    }
                }
            }
        }
        proof {
            assert(strs@.take(n as int) =~= strs@);
        }
        root
    }

    /// Whether `s` is stored in the trie.
    pub fn contains(&self, s: &str) -> (r: bool)
        ensures
            r == self.has_word(s@),
    {
        let cs = chars_of(s);
        let n = cs.len();
        let mut node: &Trie = self;
        let mut k: usize = 0;
        assert(cs@.skip(0) =~= cs@);
        while k < n
            invariant
                n == cs@.len(),
                cs@ == s@,
                0 <= k <= n,
                self.has_word(s@) == node.has_word(cs@.skip(k as int)),
            decreases n - k,
        {
            let ghost rest = cs@.skip(k as int);
            assert(rest[0] == cs@[k as int]);
            assert(rest.drop_first() =~= cs@.skip(k + 1));
            match find_child(&node.children, cs[k]) {
                Some(i) => {
                    node = &node.children[i];
                },
                None => {
                    return false;
                },
            }
            k = k + 1;
        }
        node.has
    }
}

/// The trie of a list of words is unique: two tries of the same words, with
/// the same character at the top, are equal as `==` compares them.
pub proof fn lemma_shaped_unique(t1: Trie, t2: Trie, ws: Seq<Seq<char>>)
    requires
        t1.shaped(ws),
        t2.shaped(ws),
        t1.label() == t2.label(),
    ensures
        t1.same_tree(&t2),
    decreases t1,
{
    assert(labels(t1.children@) == labels(t2.children@));
    assert(t1.children@.len() == labels(t1.children@).len());
    assert forall|i: int| 0 <= i < t1.children@.len() implies (#[trigger] t1.children@[i]).same_tree(
        &t2.children@[i],
    ) by {
        assert(labels(t1.children@)[i] == t1.children@[i].chr);
        assert(labels(t2.children@)[i] == t2.children@[i].chr);
        lemma_shaped_unique(t1.children@[i], t2.children@[i], tails(ws, t1.children@[i].chr));
    }
}

/// Adding a word that is already among the words leaves the trie as it is.
pub proof fn lemma_shaped_repeat(t: Trie, ws: Seq<Seq<char>>, u: Seq<char>)
    requires
        t.shaped(ws),
        ws.contains(u),
    ensures
        t.shaped(ws.push(u)),
    decreases t,
{
    lemma_push_word(ws, u);
    let ws2 = ws.push(u);
    if u.len() > 0 {
        lemma_member_word(ws, u);
    }
    assert(ws2.contains(Seq::<char>::empty()) == ws.contains(Seq::<char>::empty()));
    assert forall|i: int| 0 <= i < t.children@.len() implies (#[trigger] t.children@[i]).shaped(
        tails(ws2, t.children@[i].chr),
    ) by {
        let c = t.children@[i].chr;
        if u.len() > 0 && u[0] == c {
            lemma_shaped_repeat(t.children@[i], tails(ws, c), u.drop_first());
        }
    }
}

/// Adding a string that is already among the strings adds no new word, or
/// one that is already there.
pub proof fn lemma_words_of_repeat(strs: Seq<&str>, s: &str)
    requires
        strs.contains(s),
    ensures
        words_of(strs.push(s)) == words_of(strs) || (words_of(strs.push(s)) == words_of(strs).push(s@)
            && words_of(strs).contains(s@)),
    decreases strs.len(),
{
    assert(strs.push(s).drop_last() =~= strs);
    if s@.len() > 0 {
        lemma_words_of_member(strs, s);
    }
}

/// A non-empty string of `strs` is among its words.
pub proof fn lemma_words_of_member(strs: Seq<&str>, s: &str)
    requires
        strs.contains(s),
        s@.len() > 0,
    ensures
        words_of(strs).contains(s@),
    decreases strs.len(),
{
    let v = strs.drop_last();
    let p = words_of(v);
    if strs.last() == s {
        assert(words_of(strs)[p.len() as int] == s@);
    } else {
        let i = choose|i: int| 0 <= i < strs.len() && strs[i] == s;
        assert(v[i] == s);
        lemma_words_of_member(v, s);
        let k = choose|k: int| 0 <= k < p.len() && p[k] == s@;
        assert(words_of(strs)[k] == s@);
    }
}

/// Building from the strings with one of them repeated at the end gives the
/// same trie.
pub proof fn lemma_build_repeat(t1: Trie, t2: Trie, strs: Seq<&str>, s: &str)
    requires
        t1.shaped(words_of(strs)),
        t2.shaped(words_of(strs.push(s))),
        t1.label() == t2.label(),
        strs.contains(s),
    ensures
        t1.same_tree(&t2),
{
    lemma_words_of_repeat(strs, s);
    if words_of(strs.push(s)) != words_of(strs) {
        lemma_shaped_repeat(t1, words_of(strs), s@);
    }
    lemma_shaped_unique(t1, t2, words_of(strs.push(s)));
}

/// In the trie of some words, every node below the top either has children
/// or ends a word.
pub proof fn lemma_no_dead_branches(t: Trie, ws: Seq<Seq<char>>)
    requires
        t.shaped(ws),
    ensures
        t.no_dead_branches(),
    decreases t,
{
    assert forall|i: int| 0 <= i < t.children@.len() implies {
        &&& (t.children@[i].children@.len() == 0 ==> t.children@[i].has)
        &&& (#[trigger] t.children@[i]).no_dead_branches()
    } by {
        let k = t.children@[i];
        let c = k.chr;
        let sub = tails(ws, c);
        assert(labels(t.children@)[i] == c);
        assert(first_chars(ws).contains(c));
        lemma_tails_present(ws, c);
        assert(k.shaped(sub));
        if k.children@.len() == 0 {
            assert(labels(k.children@).len() == 0);
            assert(first_chars(sub).len() == 0);
            lemma_no_first_chars(sub);
            assert(sub[0].len() == 0);
            assert(sub[0] =~= Seq::<char>::empty());
            assert(sub.contains(Seq::<char>::empty()));
        }
        lemma_no_dead_branches(k, sub);
    }
}

/// What `contains` asks, node by node: the empty string is stored where a
/// stored string ends here, and `c` followed by `v` where the child carrying
/// `c` stores `v`.
pub proof fn lemma_has_word_step(t: Trie, w: Seq<char>)
    requires
        t.well_formed(),
    ensures
        w.len() == 0 ==> t.has_word(w) == t.marked(),
        w.len() > 0 ==> t.has_word(w) == exists|i: int|
            0 <= i < t.kids().len() && (#[trigger] t.kids()[i]).label() == w[0] && t.kids()[i].has_word(
                w.drop_first(),
            ),
{
    if w.len() > 0 {
        let ls = labels(t.children@);
        lemma_first_index(ls, w[0]);
        let f = first_index(ls, w[0]);
        if f >= 0 {
            assert(t.kids()[f].label() == w[0]);
        }
        if exists|i: int|
            0 <= i < t.kids().len() && (#[trigger] t.kids()[i]).label() == w[0] && t.kids()[i].has_word(
                w.drop_first(),
            ) {
            let i = choose|i: int|
                0 <= i < t.kids().len() && (#[trigger] t.kids()[i]).label() == w[0] && t.kids()[i].has_word(
                    w.drop_first(),
                );
            assert(ls[i] == w[0]);
            if f != i {
                assert(ls[f] == w[0]);
            }
        }
    }
}

/// Appending a character `c` to a list of labels, or leaving it alone, does
/// not move the first occurrence of another character `d`.
proof fn lemma_first_index_other(cs: Seq<char>, ds: Seq<char>, c: char, d: char)
    requires
        c != d,
        ds == cs || ds == cs.push(c),
    ensures
        first_index(ds, d) == first_index(cs, d),
{
    lemma_first_index(cs, d);
    lemma_first_index(ds, d);
    let i = first_index(cs, d);
    if i >= 0 {
        lemma_first_index_at(ds, d, i);
    } else {
        assert forall|j: int| 0 <= j < ds.len() implies ds[j] != d by {
            if j < cs.len() {
                assert(ds[j] == cs[j]);
            }
        }
        lemma_first_index_absent(ds, d);
    }
}

} // verus!
