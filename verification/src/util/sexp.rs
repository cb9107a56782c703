//! S-expressions over interned atoms.
use vstd::prelude::*;

use crate::util::Symbol;

verus! {

/// An s-expression: an atom or a parenthesised list.
#[derive(Debug, PartialEq, Eq, Hash)]
pub enum Sexp {
    Atom(Symbol),
    List(Vec<Sexp>),
}

/// The mathematical value of an s-expression.
pub enum SexpV {
    Atom(Symbol),
    List(Seq<SexpV>),
}

impl Sexp {
    /// The s-expression as a mathematical value.
    pub open spec fn deep(&self) -> SexpV
        decreases self,
    {
        match self {
            Sexp::Atom(s) => SexpV::Atom(*s),
            Sexp::List(items) => SexpV::List(
                Seq::new(items@.len(), |i: int| if 0 <= i < items@.len() { items@[i].deep() } else { SexpV::Atom(arbitrary()) }),
            ),
        }
    }
}

/// The deep value of every element of a vector of s-expressions.
pub open spec fn deep_seq(v: Seq<Sexp>) -> Seq<SexpV> {
    Seq::new(v.len(), |i: int| v[i].deep())
}

/// The value of a list is the list of the values of its items.
pub proof fn lemma_deep_list(s: &Sexp)
    ensures
        s matches Sexp::List(items) ==> s.deep() == SexpV::List(deep_seq(items@)),
{
    if let Sexp::List(items) = s {
        if let SexpV::List(a) = s.deep() {
            assert(a =~= deep_seq(items@));
        }
    }
}

impl Clone for Sexp {
    #[verifier::loop_isolation(false)]
    fn clone(&self) -> (r: Self)
        ensures
            r.deep() == self.deep(),
        decreases self,
    {
        match self {
            Sexp::Atom(s) => Sexp::Atom(*s),
            Sexp::List(items) => {
                let mut out: Vec<Sexp> = Vec::new();
                let mut i: usize = 0;
                while i < items.len()
                    invariant
                        i <= items@.len(),
                        out@.len() == i,
                        forall|j: int| 0 <= j < i ==> #[trigger] out@[j].deep() == items@[j].deep(),
                    decreases items@.len() - i,
                {
                    proof {
                        assert(decreases_to!(*self => *items));
                        assert(decreases_to!(*items => items@));
                        assert(decreases_to!(items@ => items@[i as int]));
                    }
                    out.push(items[i].clone());
                    i = i + 1;
                }
                let r = Sexp::List(out);
                proof {
                    assert(r.deep() =~= self.deep()) by {
                        if let SexpV::List(a) = r.deep() {
                            if let SexpV::List(b) = self.deep() {
                                assert forall|j: int| 0 <= j < a.len() implies a[j] == b[j] by {
                                    assert(out@[j].deep() == items@[j].deep());
                                }
                                assert(a =~= b);
                            }
                        }
                    }
                }
                r
            },
        }
    }
}

/// The atom `s`.
pub fn atom(s: Symbol) -> (r: Sexp)
    ensures
        r.deep() == SexpV::Atom(s),
{
    Sexp::Atom(s)
}

/// The list of `items`.
pub fn list(items: Vec<Sexp>) -> (r: Sexp)
    ensures
        r.deep() == SexpV::List(deep_seq(items@)),
{
    let r = Sexp::List(items);
    proof {
        if let SexpV::List(a) = r.deep() {
            assert(a =~= deep_seq(items@));
        }
    }
    r
}

// ---------------------------------------------------------------------------
// Reading s-expressions
// ---------------------------------------------------------------------------

/// A token of the s-expression syntax.
pub enum Tok {
    Open,
    Close,
    Atom(Seq<char>),
}

/// An s-expression whose atoms are still text.
pub enum Tree {
    Atom(Seq<char>),
    List(Seq<Tree>),
}

/// Characters that separate tokens.
pub open spec fn is_space(c: char) -> bool {
    c == ' ' || c == '\t' || c == '\n' || c == '\r'
}

/// Characters that end an atom.
pub open spec fn is_delim(c: char) -> bool {
    is_space(c) || c == '(' || c == ')'
}

/// Where the atom that starts at `i` ends: the first delimiter at or after `i`.
pub open spec fn atom_end(cs: Seq<char>, i: int) -> int
    decreases cs.len() - i,
{
    if i < 0 || i >= cs.len() || is_delim(cs[i]) {
        i
    } else {
        atom_end(cs, i + 1)
    }
}

pub proof fn lemma_atom_end(cs: Seq<char>, i: int)
    requires
        0 <= i <= cs.len(),
    ensures
        i <= atom_end(cs, i) <= cs.len(),
        i < cs.len() && !is_delim(cs[i]) ==> i < atom_end(cs, i),
        forall|k: int| i <= k < atom_end(cs, i) ==> !is_delim(#[trigger] cs[k]),
        atom_end(cs, i) < cs.len() ==> is_delim(cs[atom_end(cs, i)]),
    decreases cs.len() - i,
{
    if i < cs.len() && !is_delim(cs[i]) {
        lemma_atom_end(cs, i + 1);
    }
}

/// The tokens of `cs` from position `i` on: spaces separate, parentheses
/// stand alone, and every maximal run of other characters is an atom.
pub open spec fn lex_from(cs: Seq<char>, i: int) -> Seq<Tok>
    decreases cs.len() - i,
{
    if i < 0 || i >= cs.len() {
        Seq::empty()
    } else if is_space(cs[i]) {
        lex_from(cs, i + 1)
    } else if cs[i] == '(' {
        seq![Tok::Open] + lex_from(cs, i + 1)
    } else if cs[i] == ')' {
        seq![Tok::Close] + lex_from(cs, i + 1)
    } else {
        let j = atom_end(cs, i);
        proof {
            lemma_atom_end(cs, i);
        }
        seq![Tok::Atom(cs.subrange(i, j))] + lex_from(cs, j)
    }
}

/// White space: blank, tab, line feed and carriage return.
pub open spec fn white(c: char) -> bool {
    c == ' ' || c == '\t' || c == '\n' || c == '\r'
}

/// Text that can stand as an atom: not empty, with neither white space nor
/// a parenthesis in it.
pub open spec fn plain_atom(a: Seq<char>) -> bool {
    &&& a.len() > 0
    &&& forall|m: int| 0 <= m < a.len() ==> !white(#[trigger] a[m]) && a[m] != '(' && a[m] != ')'
}

/// Every atom the reader cuts out of a text is plain: white space of any
/// kind and parentheses separate atoms and are never part of one.
pub proof fn lemma_atoms_plain(cs: Seq<char>, i: int)
    ensures
        forall|k: int|
            0 <= k < lex_from(cs, i).len() ==> (#[trigger] lex_from(cs, i)[k] matches Tok::Atom(a) ==> plain_atom(a)),
    decreases cs.len() - i,
{
    if 0 <= i < cs.len() {
        lemma_atoms_plain(cs, i + 1);
        if !is_space(cs[i]) && cs[i] != '(' && cs[i] != ')' {
            let j = atom_end(cs, i);
            lemma_atom_end(cs, i);
            lemma_atoms_plain(cs, j);
            let a = cs.subrange(i, j);
            assert(plain_atom(a)) by {
                assert forall|m: int| 0 <= m < a.len() implies !white(#[trigger] a[m]) && a[m] != '(' && a[m] != ')' by {
                    assert(a[m] == cs[i + m]);
                    assert(!is_delim(cs[i + m]));
                }
            }
            let t = lex_from(cs, i);
            let rest = lex_from(cs, j);
            assert(t == seq![Tok::Atom(a)] + rest);
            assert forall|k: int| 0 <= k < t.len() implies (#[trigger] t[k] matches Tok::Atom(b) ==> plain_atom(b)) by {
                if k > 0 {
                    assert(t[k] == rest[k - 1]);
                }
            }
        } else if !is_space(cs[i]) {
            let t = lex_from(cs, i);
            let rest = lex_from(cs, i + 1);
            assert forall|k: int| 0 <= k < t.len() implies (#[trigger] t[k] matches Tok::Atom(b) ==> plain_atom(b)) by {
                if k > 0 {
                    assert(t[k] == rest[k - 1]);
                }
            }
        }
    }
}

/// The text of a token.
pub open spec fn tok_text(t: Tok) -> Seq<char> {
    match t {
        Tok::Open => seq!['('],
        Tok::Close => seq![')'],
        Tok::Atom(a) => a,
    }
}

/// The texts of the tokens, one after the other.
pub open spec fn flat(ts: Seq<Tok>) -> Seq<char>
    decreases ts.len(),
{
    if ts.len() == 0 {
        Seq::empty()
    } else {
        tok_text(ts[0]) + flat(ts.drop_first())
    }
}

/// The characters of `cs` that are not white space, in order.
pub open spec fn unwhite(cs: Seq<char>) -> Seq<char>
    decreases cs.len(),
{
    if cs.len() == 0 {
        Seq::empty()
    } else {
        (if white(cs[0]) {
            Seq::empty()
        } else {
            seq![cs[0]]
        }) + unwhite(cs.drop_first())
    }
}

proof fn lemma_unwhite_step(cs: Seq<char>, i: int)
    requires
        0 <= i < cs.len(),
    ensures
        unwhite(cs.subrange(i, cs.len() as int)) == (if white(cs[i]) {
            Seq::empty()
        } else {
            seq![cs[i]]
        }) + unwhite(cs.subrange(i + 1, cs.len() as int)),
{
    let r = cs.subrange(i, cs.len() as int);
    assert(r.drop_first() =~= cs.subrange(i + 1, cs.len() as int));
    assert(r[0] == cs[i]);
}

proof fn lemma_unwhite_run(cs: Seq<char>, i: int, j: int)
    requires
        0 <= i <= j <= cs.len(),
        forall|k: int| i <= k < j ==> !white(#[trigger] cs[k]),
    ensures
        unwhite(cs.subrange(i, cs.len() as int)) == cs.subrange(i, j) + unwhite(cs.subrange(j, cs.len() as int)),
    decreases j - i,
{
    if i < j {
        lemma_unwhite_step(cs, i);
        lemma_unwhite_run(cs, i + 1, j);
        assert(cs.subrange(i, j) =~= seq![cs[i]] + cs.subrange(i + 1, j));
    } else {
        assert(cs.subrange(i, j) =~= Seq::<char>::empty());
    }
}

proof fn lemma_flat_cons(t: Tok, rest: Seq<Tok>)
    ensures
        flat(seq![t] + rest) == tok_text(t) + flat(rest),
{
    assert((seq![t] + rest).drop_first() =~= rest);
    assert((seq![t] + rest)[0] == t);
}

/// Reading loses only white space: the texts of the tokens of a text, one
/// after the other, are the text with its white space taken out.
pub proof fn lemma_tokens_spell_text(cs: Seq<char>, i: int)
    requires
        0 <= i <= cs.len(),
    ensures
        flat(lex_from(cs, i)) == unwhite(cs.subrange(i, cs.len() as int)),
    decreases cs.len() - i,
{
    if i == cs.len() {
        assert(cs.subrange(i, cs.len() as int) =~= Seq::<char>::empty());
    } else {
        lemma_unwhite_step(cs, i);
        if is_space(cs[i]) {
            lemma_tokens_spell_text(cs, i + 1);
            assert(Seq::<char>::empty() + unwhite(cs.subrange(i + 1, cs.len() as int)) =~= unwhite(cs.subrange(i + 1, cs.len() as int)));
        } else if cs[i] == '(' || cs[i] == ')' {
            lemma_tokens_spell_text(cs, i + 1);
            if cs[i] == '(' {
                lemma_flat_cons(Tok::Open, lex_from(cs, i + 1));
            } else {
                lemma_flat_cons(Tok::Close, lex_from(cs, i + 1));
            }
        } else {
            let j = atom_end(cs, i);
            lemma_atom_end(cs, i);
            lemma_tokens_spell_text(cs, j);
            lemma_flat_cons(Tok::Atom(cs.subrange(i, j)), lex_from(cs, j));
            assert forall|k: int| i <= k < j implies !white(#[trigger] cs[k]) by {
                assert(!is_delim(cs[k]));
            }
            lemma_unwhite_run(cs, i, j);
        }
    }
}

proof fn lemma_atom_end_same(cs: Seq<char>, ds: Seq<char>, i: int)
    requires
        cs.len() == ds.len(),
        forall|k: int| 0 <= k < cs.len() ==> is_delim(#[trigger] cs[k]) == is_delim(ds[k]),
    ensures
        atom_end(cs, i) == atom_end(ds, i),
    decreases cs.len() - i,
{
    if 0 <= i < cs.len() && !is_delim(cs[i]) {
        lemma_atom_end_same(cs, ds, i + 1);
    }
}

/// Which white-space character separates two tokens does not matter: a
/// text reads as the same tokens after any of its white-space characters
/// is replaced by another.
pub proof fn lemma_white_interchangeable(cs: Seq<char>, p: int, c: char, i: int)
    requires
        0 <= p < cs.len(),
        white(cs[p]),
        white(c),
    ensures
        lex_from(cs.update(p, c), i) == lex_from(cs, i),
    decreases cs.len() - i,
{
    let ds = cs.update(p, c);
    if 0 <= i < cs.len() {
        assert forall|k: int| 0 <= k < cs.len() implies is_delim(#[trigger] cs[k]) == is_delim(ds[k]) by {
            if k == p {
                assert(ds[k] == c);
            }
        }
        if is_space(cs[i]) {
            lemma_white_interchangeable(cs, p, c, i + 1);
            assert(is_space(ds[i]));
        } else if cs[i] == '(' || cs[i] == ')' {
            lemma_white_interchangeable(cs, p, c, i + 1);
            assert(ds[i] == cs[i]);
        } else {
            assert(i != p);
            assert(ds[i] == cs[i]);
            let j = atom_end(cs, i);
            lemma_atom_end(cs, i);
            lemma_atom_end_same(cs, ds, i);
            lemma_white_interchangeable(cs, p, c, j);
            assert(ds.subrange(i, j) =~= cs.subrange(i, j)) by {
                assert forall|k: int| i <= k < j implies ds[k] == cs[k] by {
                    assert(!is_delim(cs[k]));
                }
            }
        }
    }
}

/// The tokens of a tree: an atom is itself, a list is its items' tokens in parentheses.
pub open spec fn tokens(t: Tree) -> Seq<Tok>
    decreases t,
{
    match t {
        Tree::Atom(a) => seq![Tok::Atom(a)],
        Tree::List(items) => seq![Tok::Open] + tokens_seq(items) + seq![Tok::Close],
    }
}

/// The tokens of each tree, one after the other.
pub open spec fn tokens_seq(s: Seq<Tree>) -> Seq<Tok>
    decreases s,
{
    if s.len() == 0 {
        Seq::empty()
    } else {
        tokens_seq(s.drop_last()) + tokens(s.last())
    }
}

/// The text `cs` is the tokens of a tree (there is at most one).
pub open spec fn parses(cs: Seq<char>) -> bool {
    exists|t: Tree| #[trigger] tokens(t) == lex_from(cs, 0)
}

/// The tree whose tokens are those of `cs`, when `parses(cs)`.
pub open spec fn parsed_tree(cs: Seq<char>) -> Tree {
    choose|t: Tree| #[trigger] tokens(t) == lex_from(cs, 0)
}

/// A token as read: positions of an atom's text in the input.
#[derive(Clone, Copy)]
pub enum RawTok {
    Open,
    Close,
    Atom(usize, usize),
}

/// A tree as read: atoms are positions of their text in the input.
pub enum RawTree {
    Atom(usize, usize),
    List(Vec<RawTree>),
}

/// Why a text is not an s-expression.
#[derive(Debug, Clone, Copy, PartialEq, Eq, Structural)]
pub enum ParseError {
    /// The tokens do not form exactly one s-expression.
    Malformed,
}

impl RawTok {
    pub open spec fn tok(self, cs: Seq<char>) -> Tok {
        match self {
            RawTok::Open => Tok::Open,
            RawTok::Close => Tok::Close,
            RawTok::Atom(a, b) => Tok::Atom(cs.subrange(a as int, b as int)),
        }
    }

    pub open spec fn in_bounds(self, n: nat) -> bool {
        match self {
            RawTok::Atom(a, b) => a <= b <= n,
            _ => true,
        }
    }
}

pub open spec fn toks_view(ts: Seq<RawTok>, cs: Seq<char>) -> Seq<Tok> {
    ts.map_values(|t: RawTok| t.tok(cs))
}

impl RawTree {
    /// The tree, with atoms read from `cs`.
    pub open spec fn tree(&self, cs: Seq<char>) -> Tree
        decreases self,
    {
        match self {
            RawTree::Atom(a, b) => Tree::Atom(cs.subrange(*a as int, *b as int)),
            RawTree::List(items) => Tree::List(
                Seq::new(items@.len(), |i: int| if 0 <= i < items@.len() { items@[i].tree(cs) } else { Tree::Atom(Seq::empty()) }),
            ),
        }
    }

    /// Every atom lies within the first `n` characters.
    pub open spec fn in_bounds(&self, n: nat) -> bool
        decreases self,
    {
        match self {
            RawTree::Atom(a, b) => *a <= *b <= n,
            RawTree::List(items) => all_in_bounds(items@, n),
        }
    }
}

/// Every atom of each tree lies within the first `n` characters.
pub open spec fn all_in_bounds(s: Seq<RawTree>, n: nat) -> bool
    decreases s,
{
    if s.len() == 0 {
        true
    } else {
        all_in_bounds(s.drop_last(), n) && s.last().in_bounds(n)
    }
}

proof fn lemma_all_in_bounds(s: Seq<RawTree>, n: nat)
    ensures
        all_in_bounds(s, n) <==> forall|i: int| 0 <= i < s.len() ==> #[trigger] s[i].in_bounds(n),
    decreases s.len(),
{
    if s.len() > 0 {
        lemma_all_in_bounds(s.drop_last(), n);
        if forall|i: int| 0 <= i < s.len() ==> #[trigger] s[i].in_bounds(n) {
            assert forall|i: int| 0 <= i < s.drop_last().len() implies #[trigger] s.drop_last()[i].in_bounds(n) by {
                assert(s.drop_last()[i] == s[i]);
            }
            assert(s[s.len() - 1].in_bounds(n));
        }
        if all_in_bounds(s, n) {
            assert forall|i: int| 0 <= i < s.len() implies #[trigger] s[i].in_bounds(n) by {
                if i < s.len() - 1 {
                    assert(s.drop_last()[i] == s[i]);
                }
            }
        }
    }
}

/// The trees of each item.
pub open spec fn trees_of(v: Seq<RawTree>, cs: Seq<char>) -> Seq<Tree> {
    Seq::new(v.len(), |i: int| v[i].tree(cs))
}

proof fn lemma_tree_list(t: &RawTree, cs: Seq<char>)
    ensures
        t matches RawTree::List(items) ==> t.tree(cs) == Tree::List(trees_of(items@, cs)),
{
    if let RawTree::List(items) = t {
        if let Tree::List(a) = t.tree(cs) {
            assert(a =~= trees_of(items@, cs));
        }
    }
}

fn is_space_exec(c: char) -> (r: bool)
    ensures
        r == is_space(c),
{
    c == ' ' || c == '\t' || c == '\n' || c == '\r'
}

fn is_delim_exec(c: char) -> (r: bool)
    ensures
        r == is_delim(c),
{
    is_space_exec(c) || c == '(' || c == ')'
}

/// The tokens of `s`.
fn lex(s: &str) -> (r: Vec<RawTok>)
    ensures
        toks_view(r@, s@) == lex_from(s@, 0),
        forall|k: int| 0 <= k < r@.len() ==> #[trigger] r@[k].in_bounds(s@.len()),
{
    let n = s.unicode_len();
    let ghost cs = s@;
    let mut out: Vec<RawTok> = Vec::new();
    let mut i: usize = 0;
    while i < n
        invariant
            n == cs.len(),
            cs == s@,
            i <= n,
            toks_view(out@, cs) + lex_from(cs, i as int) == lex_from(cs, 0),
            forall|k: int| 0 <= k < out@.len() ==> #[trigger] out@[k].in_bounds(n as nat),
        decreases n - i,
    {
        let c = s.get_char(i);
        let ghost before = out@;
        if is_space_exec(c) {
            i = i + 1;
        } else if c == '(' {
            out.push(RawTok::Open);
            proof {
                assert(toks_view(out@, cs) =~= toks_view(before, cs).push(Tok::Open));
                assert(toks_view(out@, cs) + lex_from(cs, i + 1) =~= toks_view(before, cs) + (seq![Tok::Open] + lex_from(cs, i + 1)));
            }
            i = i + 1;
        } else if c == ')' {
            out.push(RawTok::Close);
            proof {
                assert(toks_view(out@, cs) =~= toks_view(before, cs).push(Tok::Close));
                assert(toks_view(out@, cs) + lex_from(cs, i + 1) =~= toks_view(before, cs) + (seq![Tok::Close] + lex_from(cs, i + 1)));
            }
            i = i + 1;
        } else {
            let mut j = i + 1;
            proof {
                lemma_atom_end(cs, i as int);
                assert(atom_end(cs, i as int) == atom_end(cs, i + 1));
            }
            while j < n && !is_delim_exec(s.get_char(j))
                invariant
                    n == cs.len(),
                    cs == s@,
                    i < j <= n,
                    atom_end(cs, i as int) == atom_end(cs, j as int),
                decreases n - j,
            {
                j = j + 1;
            }
            proof {
                lemma_atom_end(cs, j as int);
            }
            out.push(RawTok::Atom(i, j));
            proof {
                let a = Tok::Atom(cs.subrange(i as int, j as int));
                assert(toks_view(out@, cs) =~= toks_view(before, cs).push(a));
                assert(toks_view(out@, cs) + lex_from(cs, j as int) =~= toks_view(before, cs) + (seq![a] + lex_from(cs, j as int)));
            }
            i = j;
        }
    }
    proof {
        assert(lex_from(cs, n as int) == Seq::<Tok>::empty());
        assert(toks_view(out@, cs) + Seq::<Tok>::empty() =~= toks_view(out@, cs));
    }
    out
}

/// `x` occurs in `tv` at position `p`.
pub open spec fn prefix_at(tv: Seq<Tok>, p: int, x: Seq<Tok>) -> bool {
    0 <= p && p + x.len() <= tv.len() && tv.subrange(p, p + x.len()) == x
}

proof fn lemma_tokens_first(t: Tree)
    ensures
        tokens(t).len() >= 1,
        !(tokens(t)[0] is Close),
        tokens(t)[0] is Atom ==> t == Tree::Atom(tokens(t)[0]->Atom_0),
{
}

proof fn lemma_tokens_seq_take(its: Seq<Tree>, m: int)
    requires
        0 <= m <= its.len(),
    ensures
        m < its.len() ==> tokens_seq(its.take(m + 1)) == tokens_seq(its.take(m)) + tokens(its[m]),
        tokens_seq(its.take(m)).len() <= tokens_seq(its).len(),
        tokens_seq(its) == tokens_seq(its.take(m)) + tokens_seq(its).subrange(
            tokens_seq(its.take(m)).len() as int,
            tokens_seq(its).len() as int,
        ),
    decreases its.len(),
{
    if m < its.len() {
        assert(its.take(m + 1).drop_last() =~= its.take(m));
        assert(its.take(m + 1).last() == its[m]);
    }
    if m == its.len() {
        assert(its.take(m) =~= its);
    } else {
        lemma_tokens_seq_take(its.drop_last(), m);
        assert(its.drop_last().take(m) =~= its.take(m));
        let a = tokens_seq(its.take(m));
        let b = tokens_seq(its.drop_last());
        assert(tokens_seq(its) == b + tokens(its.last()));
        assert(tokens_seq(its) =~= a + tokens_seq(its).subrange(a.len() as int, tokens_seq(its).len() as int));
    }
}

/// Reads one tree from the tokens at `pos`: the tree whose tokens come
/// next, with the position after them. `None` when no tree's tokens come next.
fn parse_at(toks: &Vec<RawTok>, pos: usize, Ghost(cs): Ghost<Seq<char>>) -> (r: Option<(RawTree, usize)>)
    requires
        pos <= toks@.len(),
        forall|k: int| 0 <= k < toks@.len() ==> #[trigger] toks@[k].in_bounds(cs.len()),
    ensures
        r matches Some((t, k)) ==> {
            &&& pos < k <= toks@.len()
            &&& t.in_bounds(cs.len())
            &&& k == pos + tokens(t.tree(cs)).len()
            &&& prefix_at(toks_view(toks@, cs), pos as int, tokens(t.tree(cs)))
        },
        forall|t: Tree|
            prefix_at(toks_view(toks@, cs), pos as int, #[trigger] tokens(t)) ==> (r matches Some((rt, k)) && rt.tree(
                cs,
            ) == t && k == pos + tokens(t).len()),
    decreases toks@.len() - pos,
{
    let ghost tv = toks_view(toks@, cs);
    if pos >= toks.len() {
        proof {
            assert forall|t: Tree| prefix_at(tv, pos as int, #[trigger] tokens(t)) implies false by {
                lemma_tokens_first(t);
            }
        }
        return None;
    }
    match toks[pos] {
        RawTok::Close => {
            proof {
                assert forall|t: Tree| prefix_at(tv, pos as int, #[trigger] tokens(t)) implies false by {
                    lemma_tokens_first(t);
                    assert(tv[pos as int] == tokens(t)[0]);
                }
            }
            None
        },
        RawTok::Atom(a, b) => {
            let r = RawTree::Atom(a, b);
            proof {
                assert(toks@[pos as int].in_bounds(cs.len()));
                let x = tokens(r.tree(cs));
                assert(tv.subrange(pos as int, pos + 1) =~= x);
                assert forall|t: Tree| prefix_at(tv, pos as int, #[trigger] tokens(t)) implies r.tree(cs) == t
                    && pos + 1 == pos + tokens(t).len() by {
                    lemma_tokens_first(t);
                    assert(tv[pos as int] == tokens(t)[0]);
                }
            }
            Some((r, pos + 1))
        },
        RawTok::Open => {
            let mut items: Vec<RawTree> = Vec::new();
            let mut cur = pos + 1;
            proof {
                assert(tv.subrange(pos as int, cur as int) =~= seq![Tok::Open] + tokens_seq(trees_of(items@, cs)));
                assert forall|its: Seq<Tree>| prefix_at(tv, pos as int, #[trigger] tokens(Tree::List(its))) implies trees_of(
                    items@,
                    cs,
                ) == its.take(0) by {
                    assert(trees_of(items@, cs) =~= its.take(0));
                }
            }
            loop
                invariant
                    pos < cur <= toks@.len(),
                    tv == toks_view(toks@, cs),
                    forall|k: int| 0 <= k < toks@.len() ==> #[trigger] toks@[k].in_bounds(cs.len()),
                    forall|k: int| 0 <= k < items@.len() ==> #[trigger] items@[k].in_bounds(cs.len()),
                    cur == pos + 1 + tokens_seq(trees_of(items@, cs)).len(),
                    tv.subrange(pos as int, cur as int) == seq![Tok::Open] + tokens_seq(trees_of(items@, cs)),
                    forall|its: Seq<Tree>|
                        prefix_at(tv, pos as int, #[trigger] tokens(Tree::List(its))) ==> items@.len() <= its.len()
                            && trees_of(items@, cs) == its.take(items@.len() as int),
                decreases toks@.len() - cur,
            {
                let ghost m = items@.len() as int;
                let ghost done = trees_of(items@, cs);
                if cur >= toks.len() {
                    proof {
                        assert forall|its: Seq<Tree>| prefix_at(tv, pos as int, #[trigger] tokens(Tree::List(its))) implies false by {
                            lemma_tokens_seq_take(its, m);
                        }
                        assert forall|t: Tree| prefix_at(tv, pos as int, #[trigger] tokens(t)) implies false by {
                            lemma_tokens_first(t);
                            assert(tv[pos as int] == tokens(t)[0]);
                            if let Tree::List(its) = t {
                                assert(prefix_at(tv, pos as int, tokens(Tree::List(its))));
                            }
                        }
                    }
                    return None;
                }
                let ghost is_close = toks@[cur as int] is Close;
                proof {
                    assert forall|its: Seq<Tree>| prefix_at(tv, pos as int, #[trigger] tokens(Tree::List(its))) implies (m
                        < its.len() <==> !is_close) && (m < its.len() ==> prefix_at(tv, cur as int, tokens(its[m]))) by {
                        lemma_tokens_seq_take(its, m);
                        let whole = tokens(Tree::List(its));
                        let ts = tokens_seq(its);
                        let pre = tokens_seq(its.take(m));
                        assert(whole == seq![Tok::Open] + ts + seq![Tok::Close]);
                        assert(tv.subrange(pos as int, pos + whole.len()) == whole);
                        if m < its.len() {
                            lemma_tokens_seq_take(its, m + 1);
                            lemma_tokens_first(its[m]);
                            let x = tokens(its[m]);
                            let pre1 = tokens_seq(its.take(m + 1));
                            assert(pre1 == pre + x);
                            assert(ts == pre1 + ts.subrange(pre1.len() as int, ts.len() as int));
                            assert forall|q: int| 0 <= q < x.len() implies tv[cur + q] == x[q] by {
                                assert(tv[cur + q] == tv.subrange(pos as int, pos + whole.len())[cur + q - pos]);
                                assert(whole[1 + pre.len() + q] == ts[pre.len() + q]);
                                assert(ts[pre.len() + q] == pre1[pre.len() + q]);
                            }
                            assert(tv.subrange(cur as int, cur + x.len()) =~= x);
                            assert(tv[cur as int] == x[0]);
                            assert(toks_view(toks@, cs)[cur as int] == toks@[cur as int].tok(cs));
                        } else {
                            assert(its.take(m) =~= its);
                            assert(tv[cur as int] == tv.subrange(pos as int, pos + whole.len())[cur - pos]);
                            assert(whole[1 + ts.len() as int] == Tok::Close);
                            assert(toks_view(toks@, cs)[cur as int] == toks@[cur as int].tok(cs));
                        }
                    }
                }
                if let RawTok::Close = toks[cur] {
                    let r = RawTree::List(items);
                    proof {
                        lemma_all_in_bounds(items@, cs.len());
                        lemma_tree_list(&r, cs);
                        let x = tokens(r.tree(cs));
                        assert(x == seq![Tok::Open] + tokens_seq(done) + seq![Tok::Close]);
                        assert(tv.subrange(pos as int, cur + 1) =~= tv.subrange(pos as int, cur as int).push(tv[cur as int]));
                        assert(toks_view(toks@, cs)[cur as int] == toks@[cur as int].tok(cs));
                        assert(tv.subrange(pos as int, cur + 1) =~= x);
                        assert forall|t: Tree| prefix_at(tv, pos as int, #[trigger] tokens(t)) implies r.tree(cs) == t && cur
                            + 1 == pos + tokens(t).len() by {
                            lemma_tokens_first(t);
                            assert(tv[pos as int] == tokens(t)[0]);
                            if let Tree::List(its) = t {
                                assert(its.take(m) =~= its);
                            }
                        }
                    }
                    return Some((r, cur + 1));
                }
                match parse_at(toks, cur, Ghost(cs)) {
                    None => {
                        proof {
                            assert forall|its: Seq<Tree>| prefix_at(tv, pos as int, #[trigger] tokens(Tree::List(its))) implies false by {
                                assert(prefix_at(tv, cur as int, tokens(its[m])));
                            }
                            assert forall|t: Tree| prefix_at(tv, pos as int, #[trigger] tokens(t)) implies false by {
                                lemma_tokens_first(t);
                                assert(tv[pos as int] == tokens(t)[0]);
                            }
                        }
                        return None;
                    },
                    Some((t, k)) => {
                        let ghost tt = t.tree(cs);
                        let ghost before = items@;
                        items.push(t);
                        proof {
                            assert(trees_of(items@, cs) =~= done.push(tt));
                            assert(trees_of(items@, cs).drop_last() =~= done);
                            assert(tokens_seq(trees_of(items@, cs)) == tokens_seq(done) + tokens(tt));
                            assert(tv.subrange(pos as int, k as int) =~= tv.subrange(pos as int, cur as int) + tv.subrange(
                                cur as int,
                                k as int,
                            ));
                            assert forall|its: Seq<Tree>| prefix_at(tv, pos as int, #[trigger] tokens(Tree::List(its))) implies items@.len()
                                <= its.len() && trees_of(items@, cs) == its.take(items@.len() as int) by {
                                assert(prefix_at(tv, cur as int, tokens(its[m])));
                                assert(its.take(m + 1) =~= its.take(m).push(its[m]));
                            }
                        }
                        cur = k;
                    },
                }
            }
        },
    }
}

/// Reads the text `s` as one tree of tokens; `Err` when its tokens are not
/// those of exactly one tree.
pub fn parse_tree(s: &str) -> (r: Result<RawTree, ParseError>)
    ensures
        r matches Ok(t) ==> t.tree(s@) == parsed_tree(s@) && tokens(t.tree(s@)) == lex_from(s@, 0) && t.in_bounds(
            s@.len(),
        ),
        r is Err ==> !parses(s@),
{
    let toks = lex(s);
    let ghost tv = toks_view(toks@, s@);
    match parse_at(&toks, 0, Ghost(s@)) {
        Some((t, k)) => {
            if k == toks.len() {
                proof {
                    assert(tv.subrange(0, k as int) =~= tv);
                    assert(tokens(t.tree(s@)) == lex_from(s@, 0));
                    let u = parsed_tree(s@);
                    assert(tv.subrange(0, tv.len() as int) =~= tv);
                    assert(prefix_at(tv, 0, tokens(u)));
                }
                Ok(t)
            } else {
                proof {
                    assert forall|u: Tree| #[trigger] tokens(u) == lex_from(s@, 0) implies false by {
                        assert(tv.subrange(0, tv.len() as int) =~= tv);
                        assert(prefix_at(tv, 0, tokens(u)));
                    }
                }
                Err(ParseError::Malformed)
            }
        },
        None => {
            proof {
                assert forall|u: Tree| #[trigger] tokens(u) == lex_from(s@, 0) implies false by {
                    assert(tv.subrange(0, tv.len() as int) =~= tv);
                    assert(prefix_at(tv, 0, tokens(u)));
                }
            }
            Err(ParseError::Malformed)
        },
    }
}

/// `v` has the shape of `t`: atoms for atoms, and lists of the same length
/// whose items have the shapes of the items of `t`.
pub open spec fn shape(v: SexpV, t: Tree) -> bool
    decreases t,
{
    match (v, t) {
        (SexpV::Atom(_), Tree::Atom(_)) => true,
        (SexpV::List(vs), Tree::List(ts)) => shape_seq(vs, ts),
        _ => false,
    }
}

/// Each of `vs` has the shape of the tree at the same position of `ts`.
pub open spec fn shape_seq(vs: Seq<SexpV>, ts: Seq<Tree>) -> bool
    decreases ts,
{
    if ts.len() == 0 {
        vs.len() == 0
    } else {
        vs.len() == ts.len() && shape_seq(vs.drop_last(), ts.drop_last()) && shape(vs.last(), ts.last())
    }
}

/// The s-expression of a read tree: each atom's text interned.
#[verifier::loop_isolation(false)]
fn to_sexp(t: &RawTree, s: &str) -> (r: Sexp)
    requires
        t.in_bounds(s@.len()),
    ensures
        shape(r.deep(), t.tree(s@)),
    decreases t,
{
    match t {
        RawTree::Atom(a, b) => Sexp::Atom(Symbol::new(s.substring_char(*a, *b))),
        RawTree::List(items) => {
            proof {
                lemma_all_in_bounds(items@, s@.len());
                lemma_tree_list(t, s@);
            }
            let ghost ts = trees_of(items@, s@);
            let mut out: Vec<Sexp> = Vec::new();
            let mut i: usize = 0;
            proof {
                assert(deep_seq(out@) =~= Seq::<SexpV>::empty());
                assert(ts.take(0) =~= Seq::<Tree>::empty());
            }
            while i < items.len()
                invariant
                    ts == trees_of(items@, s@),
                    forall|k: int| 0 <= k < items@.len() ==> #[trigger] items@[k].in_bounds(s@.len()),
                    i <= items@.len(),
                    out@.len() == i,
                    shape_seq(deep_seq(out@), ts.take(i as int)),
                decreases items@.len() - i,
            {
                proof {
                    assert(decreases_to!(*t => *items));
                    assert(decreases_to!(*items => items@));
                    assert(decreases_to!(items@ => items@[i as int]));
                }
                let x = to_sexp(&items[i], s);
                let ghost before = deep_seq(out@);
                out.push(x);
                proof {
                    assert(deep_seq(out@) =~= before.push(x.deep()));
                    assert(deep_seq(out@).drop_last() =~= before);
                    assert(ts.take(i + 1int).drop_last() =~= ts.take(i as int));
                    assert(ts.take(i + 1int).last() == ts[i as int]);
                }
                i = i + 1;
            }
            let r = list(out);
            proof {
                assert(ts.take(items@.len() as int) =~= ts);
            }
            r
        },
    }
}

/// Reads the text `s` as an s-expression; `Err` exactly when its tokens are
/// not those of one s-expression. Atoms are interned, so only the shape of
/// the result is stated here; its atoms are the symbols of the atoms' texts.
pub fn parse(s: &str) -> (r: Result<Sexp, ParseError>)
    ensures
        r is Ok <==> parses(s@),
        r matches Ok(v) ==> shape(v.deep(), parsed_tree(s@)),
{
    match parse_tree(s) {
        Ok(t) => Ok(to_sexp(&t, s)),
        Err(e) => Err(e),
    }
}

/// Reads the text `s`, which must be an s-expression.
pub fn sexp(s: &str) -> (r: Sexp)
    requires
        parses(s@),
    ensures
        shape(r.deep(), parsed_tree(s@)),
{
    match parse(s) {
        Ok(v) => v,
        Err(_) => Sexp::List(Vec::new()),
    }
}

impl std::str::FromStr for Sexp {
    type Err = ParseError;

    /// Reads `s` as `parse` does.
    fn from_str(s: &str) -> (r: Result<Sexp, ParseError>)
        ensures
            r is Ok <==> parses(s@),
            r matches Ok(v) ==> shape(v.deep(), parsed_tree(s@)),
    {
        parse(s)
    }
}

/// Every list in `t` has a head.
pub open spec fn tree_lists_nonempty(t: Tree) -> bool
    decreases t,
{
    match t {
        Tree::Atom(_) => true,
        Tree::List(ts) => ts.len() > 0 && trees_lists_nonempty(ts),
    }
}

/// Every list in each of `ts` has a head.
pub open spec fn trees_lists_nonempty(ts: Seq<Tree>) -> bool
    decreases ts,
{
    if ts.len() == 0 {
        true
    } else {
        trees_lists_nonempty(ts.drop_last()) && tree_lists_nonempty(ts.last())
    }
}

} // verus!
