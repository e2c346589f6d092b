//! Programs: rewrite rules, unification statements and a return expression.
use vstd::prelude::*;

use crate::parse::{chars_of, find_char, index_of, lemma_find_char, parse_chars, parse_term};
use crate::term::{append_str, print, push_char, RelogTerm, Term};

verus! {

broadcast use vstd::std_specs::vec::group_vec_axioms;

/// Mathematical model of a program.
pub struct Prog {
    pub bindings: Seq<(Term, Term)>,
    pub unifications: Seq<(Term, Term)>,
    pub ret: Term,
}

/// A parsed program. Rules come first in declaration order, then the
/// unification statements in order, then the term the program returns.
pub struct RelogProg {
    pub bindings: Vec<(RelogTerm, RelogTerm)>,
    pub unifications: Vec<(RelogTerm, RelogTerm)>,
    pub ret: RelogTerm,
}

/// The models of a sequence of term pairs.
pub open spec fn pair_views(ps: Seq<(RelogTerm, RelogTerm)>) -> Seq<(Term, Term)> {
    Seq::new(ps.len(), |i: int| (ps[i].0@, ps[i].1@))
}

impl View for RelogProg {
    type V = Prog;

    open spec fn view(&self) -> Prog {
        Prog {
            bindings: pair_views(self.bindings@),
            unifications: pair_views(self.unifications@),
            ret: self.ret@,
        }
    }
}

/// Unicode white space, which program text ignores everywhere.
pub open spec fn is_space(c: char) -> bool {
    ('\u{9}' <= c && c <= '\u{d}') || c == ' ' || c == '\u{85}' || c == '\u{a0}' || c
        == '\u{1680}' || ('\u{2000}' <= c && c <= '\u{200a}') || c == '\u{2028}' || c
        == '\u{2029}' || c == '\u{202f}' || c == '\u{205f}' || c == '\u{3000}'
}

/// The text with its white space removed.
pub open spec fn strip_spaces(s: Seq<char>) -> Seq<char>
    decreases s.len(),
{
    if s.len() == 0 {
        Seq::empty()
    } else if is_space(s.last()) {
        strip_spaces(s.drop_last())
    } else {
        strip_spaces(s.drop_last()).push(s.last())
    }
}

/// The text cut at every `sep`; there is always at least one piece.
pub open spec fn split_on(t: Seq<char>, sep: char) -> Seq<Seq<char>>
    decreases t.len(),
{
    if t.len() == 0 {
        seq![Seq::empty()]
    } else {
        let prev = split_on(t.drop_last(), sep);
        if t.last() == sep {
            prev.push(Seq::empty())
        } else {
            prev.update(prev.len() - 1, prev.last().push(t.last()))
        }
    }
}

/// The first index at or after `i` where `:=` starts, or -1.
pub open spec fn find_define(t: Seq<char>, i: int) -> int
    decreases t.len() - i,
{
    if i < 0 || i + 1 >= t.len() {
        -1
    } else if t[i] == ':' && t[i + 1] == '=' {
        i
    } else {
        find_define(t, i + 1)
    }
}

/// What one clause adds to the rules and statements read so far: a comment
/// (`#...`) adds nothing, `l:=r` adds a rule, `l=r` a statement, split at the
/// first `:=` or `=`; any other clause adds nothing.
pub open spec fn add_clause(
    acc: (Seq<(Term, Term)>, Seq<(Term, Term)>),
    c: Seq<char>,
) -> (Seq<(Term, Term)>, Seq<(Term, Term)>) {
    let d = find_define(c, 0);
    let e = find_char(c, '=', 0);
    if c.len() > 0 && c[0] == '#' {
        acc
    } else if d >= 0 {
        (acc.0.push((parse_term(c.take(d)), parse_term(c.skip(d + 2)))), acc.1)
    } else if e >= 0 {
        (acc.0, acc.1.push((parse_term(c.take(e)), parse_term(c.skip(e + 1)))))
    } else {
        acc
    }
}

/// The rules and statements of a sequence of clauses, in order.
pub open spec fn collect(cs: Seq<Seq<char>>) -> (Seq<(Term, Term)>, Seq<(Term, Term)>)
    decreases cs.len(),
{
    if cs.len() == 0 {
        (Seq::empty(), Seq::empty())
    } else {
        add_clause(collect(cs.drop_last()), cs.last())
    }
}

/// The program that text denotes: white space removed, clauses cut at `;`,
/// the last clause (even an empty one) being the return expression.
pub open spec fn parse_prog(s: Seq<char>) -> Prog {
    let cs = split_on(strip_spaces(s), ';');
    let acc = collect(cs.drop_last());
    Prog { bindings: acc.0, unifications: acc.1, ret: parse_term(cs.last()) }
}

/// Printed pairs, each followed by `;`, with `op` between the two terms.
pub open spec fn print_pairs(ps: Seq<(Term, Term)>, op: Seq<char>) -> Seq<char>
    decreases ps.len(),
{
    if ps.len() == 0 {
        Seq::empty()
    } else {
        print_pairs(ps.drop_last(), op) + print(ps.last().0) + op + print(ps.last().1) + seq![';']
    }
}

/// The printed form of a program.
pub open spec fn print_prog(p: Prog) -> Seq<char> {
    print_pairs(p.bindings, seq![':', '=']) + print_pairs(p.unifications, seq!['='])
        + print(p.ret)
}

fn is_space_char(c: char) -> (r: bool)
    ensures
        r == is_space(c),
{
    ('\u{9}' <= c && c <= '\u{d}') || c == ' ' || c == '\u{85}' || c == '\u{a0}' || c
        == '\u{1680}' || ('\u{2000}' <= c && c <= '\u{200a}') || c == '\u{2028}' || c
        == '\u{2029}' || c == '\u{202f}' || c == '\u{205f}' || c == '\u{3000}'
}

/// A copy of `v[lo..hi]`.
fn slice_of(v: &Vec<char>, lo: usize, hi: usize) -> (r: Vec<char>)
    requires
        lo <= hi <= v.len(),
    ensures
        r@ == v@.subrange(lo as int, hi as int),
{
    let mut r: Vec<char> = Vec::new();
    let mut i: usize = lo;
    while i < hi
        invariant
            lo <= i <= hi <= v.len(),
            r@ == v@.subrange(lo as int, i as int),
        decreases hi - i,
    {
        r.push(v[i]);
        proof {
            assert(r@ =~= v@.subrange(lo as int, i + 1));
        }
        i = i + 1;
    }
    r
}

/// Where the first `:=` starts.
fn find_define_in(c: &Vec<char>) -> (r: Option<usize>)
    ensures
        match r {
            Some(k) => find_define(c@, 0) == k as int,
            None => find_define(c@, 0) == -1,
        },
{
    let mut i: usize = 0;
    while i < c.len() && i + 1 < c.len()
        invariant
            find_define(c@, 0) == find_define(c@, i as int),
        decreases c.len() - i,
    {
        if c[i] == ':' && c[i + 1] == '=' {
            return Some(i);
        }
        i = i + 1;
    }
    None
}

proof fn lemma_find_define(t: Seq<char>, i: int)
    requires
        0 <= i,
    ensures
        find_define(t, i) == -1 || (i <= find_define(t, i) && find_define(t, i) + 1 < t.len()),
    decreases t.len() - i,
{
    if i + 1 < t.len() && !(t[i] == ':' && t[i + 1] == '=') {
        lemma_find_define(t, i + 1);
    }
}

pub(crate) proof fn lemma_pair_views_push(ps: Seq<(RelogTerm, RelogTerm)>, p: (RelogTerm, RelogTerm))
    ensures
        pair_views(ps.push(p)) == pair_views(ps).push((p.0@, p.1@)),
{
    assert(pair_views(ps.push(p)) =~= pair_views(ps).push((p.0@, p.1@)));
}

/// Files one clause under the rules or the statements.
fn read_clause(
    c: &Vec<char>,
    bindings: &mut Vec<(RelogTerm, RelogTerm)>,
    unifications: &mut Vec<(RelogTerm, RelogTerm)>,
)
    ensures
        (pair_views(final(bindings)@), pair_views(final(unifications)@)) == add_clause(
            (pair_views(old(bindings)@), pair_views(old(unifications)@)),
            c@,
        ),
{
    let n = c.len();
    if n > 0 && c[0] == '#' {
        return;
    }
    match find_define_in(c) {
        Some(d) => {
            proof {
                lemma_find_define(c@, 0);
            }
            let l = parse_chars(&slice_of(c, 0, d));
            let r = parse_chars(&slice_of(c, d + 2, n));
            proof {
                assert(c@.subrange(0, d as int) =~= c@.take(d as int));
                assert(c@.subrange(d + 2, n as int) =~= c@.skip(d + 2));
                lemma_pair_views_push(bindings@, (l, r));
            }
            bindings.push((l, r));
        },
        None => {
            proof {
                assert(c@.take(n as int) =~= c@);
            }
            match index_of(c, '=', n) {
                Some(e) => {
                    proof {
                        lemma_find_char(c@, '=', 0);
                    }
                    let l = parse_chars(&slice_of(c, 0, e));
                    let r = parse_chars(&slice_of(c, e + 1, n));
                    proof {
                        assert(c@.subrange(0, e as int) =~= c@.take(e as int));
                        assert(c@.subrange(e + 1, n as int) =~= c@.skip(e + 1));
                        lemma_pair_views_push(unifications@, (l, r));
                    }
                    unifications.push((l, r));
                },
                None => {},
            }
        },
    }
}

proof fn lemma_split_on_len(t: Seq<char>, sep: char)
    ensures
        split_on(t, sep).len() >= 1,
    decreases t.len(),
{
    if t.len() > 0 {
        lemma_split_on_len(t.drop_last(), sep);
    }
}

/// Reads a program from text. Nothing fails: malformed parts become
/// `Reject` terms or are dropped.
pub fn parse_relog_prog(s: &str) -> (r: RelogProg)
    ensures
        r@ == parse_prog(s@),
{
    let cs = chars_of(s);
    let mut clean: Vec<char> = Vec::new();
    let mut i: usize = 0;
    while i < cs.len()
        invariant
            i <= cs.len(),
            clean@ == strip_spaces(cs@.take(i as int)),
        decreases cs.len() - i,
    {
        let c = cs[i];
        proof {
            assert(cs@.take(i + 1).drop_last() =~= cs@.take(i as int));
        }
        if !is_space_char(c) {
            clean.push(c);
        }
        i = i + 1;
    }
    proof {
        assert(cs@.take(cs.len() as int) =~= cs@);
    }
    let mut bindings: Vec<(RelogTerm, RelogTerm)> = Vec::new();
    let mut unifications: Vec<(RelogTerm, RelogTerm)> = Vec::new();
    let mut run: Vec<char> = Vec::new();
    let mut j: usize = 0;
    proof {
        assert(pair_views(bindings@) =~= Seq::empty());
        assert(pair_views(unifications@) =~= Seq::empty());
        assert(split_on(clean@.take(0), ';').drop_last() =~= Seq::empty());
    }
    while j < clean.len()
        invariant
            j <= clean.len(),
            ({
                let pieces = split_on(clean@.take(j as int), ';');
                &&& (pair_views(bindings@), pair_views(unifications@)) == collect(
                    pieces.drop_last(),
                )
                &&& run@ == pieces.last()
            }),
        decreases clean.len() - j,
    {
        let c = clean[j];
        let ghost t = clean@.take(j as int);
        proof {
            assert(clean@.take(j + 1) =~= t.push(c));
            assert(t.push(c).drop_last() =~= t);
            lemma_split_on_len(t, ';');
        }
        if c == ';' {
            read_clause(&run, &mut bindings, &mut unifications);
            run = Vec::new();
            proof {
                let after = split_on(t.push(c), ';');
                assert(after.drop_last() =~= split_on(t, ';'));
                assert(after.last() =~= run@);
            }
        } else {
            run.push(c);
            proof {
                let before = split_on(t, ';');
                let after = split_on(t.push(c), ';');
                assert(after.drop_last() =~= before.drop_last());
                assert(after.last() =~= run@);
            }
        }
        j = j + 1;
    }
    proof {
        assert(clean@.take(clean.len() as int) =~= clean@);
    }
    let ret = parse_chars(&run);
    RelogProg { bindings, unifications, ret }
}

/// Appends `l op r;` for each pair.
fn write_pairs(ps: &Vec<(RelogTerm, RelogTerm)>, op: &str, out: &mut String)
    ensures
        final(out)@ == old(out)@ + print_pairs(pair_views(ps@), op@),
{
    let ghost start = out@;
    let mut i: usize = 0;
    while i < ps.len()
        invariant
            i <= ps.len(),
            out@ == start + print_pairs(pair_views(ps@).take(i as int), op@),
        decreases ps.len() - i,
    {
        let ghost pv = pair_views(ps@);
        proof {
            assert(pv.take(i + 1).drop_last() =~= pv.take(i as int));
        }
        ps[i].0.write_to(out);
        append_str(out, op);
        ps[i].1.write_to(out);
        push_char(out, ';');
        proof {
            assert(out@ =~= start + print_pairs(pv.take(i + 1), op@));
        }
        i = i + 1;
    }
    proof {
        assert(pair_views(ps@).take(ps.len() as int) =~= pair_views(ps@));
    }
}

impl RelogProg {
    /// The printed form of the program: `l:=r;` for each rule, then `l=r;`
    /// for each statement, then the return expression.
    pub fn to_string(&self) -> (r: String)
        ensures
            r@ == print_prog(self@),
    {
        let mut out = String::new();
        write_pairs(&self.bindings, ":=", &mut out);
        write_pairs(&self.unifications, "=", &mut out);
        self.ret.write_to(&mut out);
        proof {
            reveal_strlit(":=");
            reveal_strlit("=");
            assert(":="@ =~= seq![':', '=']);
            assert("="@ =~= seq!['=']);
            assert(out@ =~= print_prog(self@));
        }
        out
    }
}

} // verus!
