//! Reading terms and programs from text.
use vstd::prelude::*;

use crate::term::{print, print_list, push_char, RelogTerm, Term};
use vstd::std_specs::iter::IteratorSpec;

verus! {

broadcast use vstd::std_specs::vec::group_vec_axioms;

/// Characters that can never start a term.
pub open spec fn is_reserved(c: char) -> bool {
    c == '<' || c == '>' || c == ',' || c == ':' || c == ';' || c == '='
}

/// A lowercase ASCII letter or `_` starts a variable.
pub open spec fn starts_var(c: char) -> bool {
    ('a' <= c && c <= 'z') || c == '_'
}

/// The first index at or after `i` that holds `c`, or -1.
pub open spec fn find_char(t: Seq<char>, c: char, i: int) -> int
    decreases t.len() - i,
{
    if i < 0 || i >= t.len() {
        -1
    } else if t[i] == c {
        i
    } else {
        find_char(t, c, i + 1)
    }
}

/// How many more `<` than `>` the text holds.
pub open spec fn nesting(t: Seq<char>) -> int
    decreases t.len(),
{
    if t.len() == 0 {
        0
    } else {
        let c = t.last();
        nesting(t.drop_last()) + if c == '<' {
            1int
        } else if c == '>' {
            -1int
        } else {
            0int
        }
    }
}

/// The text cut at every comma that stands outside all brackets; there is
/// always at least one piece.
pub open spec fn split_top(t: Seq<char>) -> Seq<Seq<char>>
    decreases t.len(),
{
    if t.len() == 0 {
        seq![Seq::empty()]
    } else {
        let prev = split_top(t.drop_last());
        let c = t.last();
        if c == ',' && nesting(t.drop_last()) == 0 {
            prev.push(Seq::empty())
        } else {
            prev.update(prev.len() - 1, prev.last().push(c))
        }
    }
}

/// The term that text denotes. Malformed text gives `Reject`.
pub open spec fn parse_term(s: Seq<char>) -> Term
    decreases s.len(),
{
    if s.len() == 0 {
        Term::Reject
    } else if is_reserved(s[0]) {
        Term::Reject
    } else if starts_var(s[0]) {
        Term::Var(s)
    } else if s.last() != '>' {
        Term::Atomic(s)
    } else {
        let body = s.drop_last();
        let k = find_char(body, '<', 0);
        if k < 0 {
            Term::Reject
        } else {
            let pieces = split_top(body.subrange(k + 1, body.len() as int));
            Term::Compound(
                body.take(k),
                Seq::new(
                    pieces.len(),
                    |j: int|
                        if 0 <= j < pieces.len() && pieces[j].len() < s.len() {
                            parse_term(pieces[j])
                        } else {
                            Term::Reject
                        },
                ),
            )
        }
    }
}

pub proof fn lemma_split_top(t: Seq<char>)
    ensures
        split_top(t).len() >= 1,
        forall|j: int| 0 <= j < split_top(t).len() ==> #[trigger] split_top(t)[j].len() <= t.len(),
    decreases t.len(),
{
    if t.len() > 0 {
        lemma_split_top(t.drop_last());
    }
}

pub proof fn lemma_find_char(t: Seq<char>, c: char, i: int)
    requires
        0 <= i,
    ensures
        find_char(t, c, i) == -1 || (i <= find_char(t, c, i) < t.len() && t[find_char(t, c, i)] == c),
    decreases t.len() - i,
{
    if i < t.len() && t[i] != c {
        lemma_find_char(t, c, i + 1);
    }
}

/// The characters of `s`, in order.
pub fn chars_of(s: &str) -> (r: Vec<char>)
    ensures
        r@ == s@,
{
    broadcast use vstd::string::axiom_spec_iter, vstd::string::next_postcondition;

    let mut it = s.chars();
    let mut r: Vec<char> = Vec::new();
    loop
        invariant
            r@ + it.remaining() == s@,
            it.decrease() is Some,
        decreases it.decrease()->0,
    {
        match it.next() {
            Some(c) => {
                r.push(c);
                proof {
                    assert(r@ + it.remaining() =~= s@);
                }
            },
            None => {
                proof {
                    assert(r@ =~= s@);
                }
                return r;
            },
        }
    }
}

/// The text held by `v[lo..hi]`.
pub fn string_of(v: &Vec<char>, lo: usize, hi: usize) -> (r: String)
    requires
        lo <= hi <= v.len(),
    ensures
        r@ == v@.subrange(lo as int, hi as int),
{
    let mut r = String::new();
    let mut i: usize = lo;
    while i < hi
        invariant
            lo <= i <= hi <= v.len(),
            r@ == v@.subrange(lo as int, i as int),
        decreases hi - i,
    {
        push_char(&mut r, v[i]);
        proof {
            assert(r@ =~= v@.subrange(lo as int, i + 1));
        }
        i = i + 1;
    }
    r
}

/// The first position before `end` that holds `c`.
pub(crate) fn index_of(v: &Vec<char>, c: char, end: usize) -> (r: Option<usize>)
    requires
        end <= v.len(),
    ensures
        match r {
            Some(k) => find_char(v@.take(end as int), c, 0) == k as int,
            None => find_char(v@.take(end as int), c, 0) == -1,
        },
{
    let ghost t = v@.take(end as int);
    let mut i: usize = 0;
    while i < end
        invariant
            i <= end <= v.len(),
            t == v@.take(end as int),
            find_char(t, c, 0) == find_char(t, c, i as int),
        decreases end - i,
    {
        if v[i] == c {
            return Some(i);
        }
        i = i + 1;
    }
    None
}

proof fn lemma_split_step(t: Seq<char>, c: char)
    ensures
        ({
            let u = t.push(c);
            &&& u.drop_last() == t
            &&& nesting(u) == nesting(t) + if c == '<' {
                1int
            } else if c == '>' {
                -1int
            } else {
                0int
            }
        }),
{
    assert(t.push(c).drop_last() =~= t);
}

/// Reads a term from its characters.
pub fn parse_chars(s: &Vec<char>) -> (r: RelogTerm)
    ensures
        r@ == parse_term(s@),
    decreases s@.len(),
{
    let n = s.len();
    if n == 0 {
        return RelogTerm::Reject;
    }
    let c0 = s[0];
    if c0 == '<' || c0 == '>' || c0 == ',' || c0 == ':' || c0 == ';' || c0 == '=' {
        RelogTerm::Reject
    } else if ('a' <= c0 && c0 <= 'z') || c0 == '_' {
        let r = RelogTerm::Var(string_of(s, 0, n));
        proof {
            assert(s@.subrange(0, n as int) =~= s@);
        }
        r
    } else if s[n - 1] != '>' {
        let r = RelogTerm::Atomic(string_of(s, 0, n));
        proof {
            assert(s@.subrange(0, n as int) =~= s@);
        }
        r
    } else {
        let ghost body = s@.drop_last();
        proof {
            assert(s@.take(n - 1) =~= body);
        }
        match index_of(s, '<', n - 1) {
            None => RelogTerm::Reject,
            Some(k) => {
                proof {
                    lemma_find_char(body, '<', 0);
                }
                let head = string_of(s, 0, k);
                let ghost inner = body.subrange(k + 1, body.len() as int);
                let mut args: Vec<RelogTerm> = Vec::new();
                let mut run: Vec<char> = Vec::new();
                let mut opens: usize = 0;
                let mut closes: usize = 0;
                let mut i: usize = k + 1;
                while i < n - 1
                    invariant
                        k + 1 <= i <= n - 1,
                        n == s.len(),
                        ({
                            let t = s@.subrange(k + 1, i as int);
                            let pieces = split_top(t);
                            &&& args@.len() == pieces.len() - 1
                            &&& forall|j: int|
                                0 <= j < args@.len() ==> #[trigger] args@[j]@ == parse_term(
                                    pieces[j],
                                )
                            &&& run@ == pieces.last()
                            &&& opens as int - closes as int == nesting(t)
                            &&& opens + closes <= i
                        }),
                    decreases n - 1 - i,
                {
                    let ghost t = s@.subrange(k + 1, i as int);
                    let c = s[i];
                    proof {
                        assert(s@.subrange(k + 1, i + 1) =~= t.push(c));
                        lemma_split_step(t, c);
                        lemma_split_top(t);
                    }
                    if c == '<' {
                        opens = opens + 1;
                        run.push(c);
                    } else if c == '>' {
                        closes = closes + 1;
                        run.push(c);
                    } else if c == ',' && opens == closes {
                        let a = parse_chars(&run);
                        args.push(a);
                        run = Vec::new();
                    } else {
                        run.push(c);
                    }
                    proof {
                        let u = t.push(c);
                        assert(split_top(u).last() =~= run@);
                        assert forall|j: int| 0 <= j < args@.len() implies #[trigger] args@[j]@
                            == parse_term(split_top(u)[j]) by {}
                    }
                    i = i + 1;
                }
                let ghost t = s@.subrange(k + 1, i as int);
                proof {
                    lemma_split_top(t);
                    assert(t =~= inner);
                }
                let a = parse_chars(&run);
                args.push(a);
                let r = RelogTerm::Compound(head, args);
                proof {
                    assert(body.take(k as int) =~= s@.subrange(0, k as int));
                    let pieces = split_top(inner);
                    let want = parse_term(s@);
                    assert(find_char(body, '<', 0) == k);
                    assert(want->Compound_0 == head@);
                    let got = r@->Compound_1;
                    assert(got.len() == pieces.len());
                    assert forall|j: int| 0 <= j < pieces.len() implies got[j]
                        == want->Compound_1[j] by {
                        assert(pieces[j].len() <= inner.len());
                        assert(got[j] == args@[j]@);
                    }
                    assert(got =~= want->Compound_1);
                }
                r
            },
        }
    }
}

/// Reads a term from text. Malformed text gives `Reject`; nothing fails.
pub fn parse_relog_term(s: &str) -> (r: RelogTerm)
    ensures
        r@ == parse_term(s@),
{
    let cs = chars_of(s);
    parse_chars(&cs)
}


/// A name: non-empty, with no reserved character.
pub open spec fn plain_name(n: Seq<char>) -> bool {
    n.len() > 0 && forall|i: int| 0 <= i < n.len() ==> !is_reserved(#[trigger] n[i])
}

/// A term that its printed form denotes: no `Reject`, names without
/// reserved characters, variable names starting with a lowercase letter or
/// `_`, other names not, and at least one argument in each compound.
pub open spec fn well_formed(t: Term) -> bool
    decreases t,
{
    match t {
        Term::Reject => false,
        Term::Var(v) => plain_name(v) && starts_var(v[0]),
        Term::Atomic(a) => plain_name(a) && !starts_var(a[0]),
        Term::Compound(h, xs) => plain_name(h) && !starts_var(h[0]) && xs.len() >= 1 && forall|i: int|
            0 <= i < xs.len() ==> well_formed(#[trigger] xs[i]),
    }
}

/// Text made of one name alone reads back to itself.
pub proof fn lemma_round_trip_name(t: Seq<char>)
    requires
        plain_name(t),
    ensures
        print(parse_term(t)) == t,
{
    assert(!is_reserved(t[t.len() - 1]));
}

proof fn lemma_nesting_concat(a: Seq<char>, b: Seq<char>)
    ensures
        nesting(a + b) == nesting(a) + nesting(b),
    decreases b.len(),
{
    if b.len() > 0 {
        lemma_nesting_concat(a, b.drop_last());
        assert((a + b).drop_last() =~= a + b.drop_last());
    } else {
        assert(a + b =~= a);
    }
}

/// Every prefix holds at least as many `<` as `>`, and the whole as many.
pub open spec fn balanced(p: Seq<char>) -> bool {
    &&& nesting(p) == 0
    &&& forall|k: int| 0 <= k <= p.len() ==> nesting(#[trigger] p.take(k)) >= 0
}

/// Balanced, and every comma stands inside brackets.
pub open spec fn sealed(p: Seq<char>) -> bool {
    &&& balanced(p)
    &&& forall|k: int| 0 <= k < p.len() && p[k] == ',' ==> nesting(#[trigger] p.take(k)) >= 1
}

proof fn lemma_name_nesting(n: Seq<char>)
    requires
        forall|i: int| 0 <= i < n.len() ==> !is_reserved(#[trigger] n[i]),
    ensures
        forall|k: int| 0 <= k <= n.len() ==> nesting(#[trigger] n.take(k)) == 0,
        nesting(n) == 0,
    decreases n.len(),
{
    if n.len() > 0 {
        let d = n.drop_last();
        assert forall|i: int| 0 <= i < d.len() implies !is_reserved(#[trigger] d[i]) by {
            assert(d[i] == n[i]);
        }
        lemma_name_nesting(d);
        assert(!is_reserved(n[n.len() - 1]));
        assert forall|k: int| 0 <= k <= n.len() implies nesting(#[trigger] n.take(k)) == 0 by {
            if k < n.len() {
                assert(n.take(k) =~= d.take(k));
            } else {
                assert(n.take(k) =~= n);
            }
        }
    } else {
        assert forall|k: int| 0 <= k <= n.len() implies nesting(#[trigger] n.take(k)) == 0 by {
            assert(n.take(k) =~= Seq::<char>::empty());
        }
    }
}

proof fn lemma_take_concat(a: Seq<char>, b: Seq<char>, k: int)
    requires
        0 <= k <= a.len() + b.len(),
    ensures
        k <= a.len() ==> (a + b).take(k) == a.take(k),
        k >= a.len() ==> (a + b).take(k) == a + b.take(k - a.len()),
{
    if k <= a.len() {
        assert((a + b).take(k) =~= a.take(k));
    }
    if k >= a.len() {
        assert((a + b).take(k) =~= a + b.take(k - a.len()));
    }
}

proof fn lemma_balanced_concat(a: Seq<char>, b: Seq<char>)
    requires
        balanced(a),
        balanced(b),
    ensures
        balanced(a + b),
{
    lemma_nesting_concat(a, b);
    assert forall|k: int| 0 <= k <= (a + b).len() implies nesting(#[trigger] (a + b).take(k)) >= 0 by {
        lemma_take_concat(a, b, k);
        if k >= a.len() {
            lemma_nesting_concat(a, b.take(k - a.len()));
        }
    }
}

proof fn lemma_comma_balanced(a: Seq<char>, b: Seq<char>)
    requires
        balanced(a),
        balanced(b),
    ensures
        balanced(a + seq![','] + b),
{
    let c: Seq<char> = seq![','];
    assert(nesting(c) == nesting(c.drop_last()) + 0);
    assert(c.drop_last() =~= Seq::<char>::empty());
    assert forall|k: int| 0 <= k <= c.len() implies nesting(#[trigger] c.take(k)) >= 0 by {
        if k == 0 {
            assert(c.take(k) =~= Seq::<char>::empty());
        } else {
            assert(c.take(k) =~= c);
        }
    }
    lemma_balanced_concat(a, c);
    lemma_balanced_concat(a + c, b);
}

proof fn lemma_list_balanced(xs: Seq<Term>)
    requires
        forall|i: int| 0 <= i < xs.len() ==> #[trigger] well_formed(xs[i]),
    ensures
        balanced(print_list(xs)),
    decreases xs, 0nat,
{
    if xs.len() == 0 {
        assert(print_list(xs).take(0) =~= Seq::<char>::empty());
    } else if xs.len() == 1 {
        lemma_sealed(xs[0]);
    } else {
        let d = xs.drop_last();
        assert forall|i: int| 0 <= i < d.len() implies #[trigger] well_formed(d[i]) by {
            assert(d[i] == xs[i]);
        }
        lemma_list_balanced(d);
        lemma_sealed(xs.last());
        lemma_comma_balanced(print_list(d), print(xs.last()));
    }
}

/// The printed form of a well-formed term is sealed.
proof fn lemma_sealed(t: Term)
    requires
        well_formed(t),
    ensures
        sealed(print(t)),
    decreases t, 1nat,
{
    match t {
        Term::Compound(h, xs) => {
            assert(decreases_to!(t => xs));
            assert forall|i: int| 0 <= i < xs.len() implies #[trigger] well_formed(xs[i]) by {
                assert(decreases_to!(t => xs));
                assert(decreases_to!(xs => xs[i]));
            }
            lemma_list_balanced(xs);
            let l = print_list(xs);
            let open: Seq<char> = seq!['<'];
            let close: Seq<char> = seq!['>'];
            let p = h + open + l + close;
            assert(print(t) == p);
            lemma_name_nesting(h);
            assert(open.drop_last() =~= Seq::<char>::empty());
            assert(close.drop_last() =~= Seq::<char>::empty());
            assert(nesting(Seq::<char>::empty()) == 0);
            assert(nesting(open) == 1);
            assert(nesting(close) == -1);
            lemma_nesting_concat(h, open);
            lemma_nesting_concat(h + open, l);
            lemma_nesting_concat(h + open + l, close);
            assert(nesting(h + open) == 1);
            assert(nesting(p) == 0);
            assert forall|k: int| 0 <= k <= p.len() implies nesting(#[trigger] p.take(k)) >= 0 by {
                if k <= h.len() {
                    assert(p.take(k) =~= h.take(k));
                } else if k <= h.len() + 1 + l.len() {
                    let j = k - h.len() - 1;
                    assert(p.take(k) =~= (h + open) + l.take(j));
                    lemma_nesting_concat(h + open, l.take(j));
                } else {
                    assert(p.take(k) =~= p);
                }
            }
            assert forall|k: int| 0 <= k < p.len() && p[k] == ',' implies nesting(
                #[trigger] p.take(k),
            ) >= 1 by {
                if k < h.len() {
                    assert(p[k] == h[k]);
                    assert(!is_reserved(h[k]));
                } else if k == h.len() {
                    assert(p[k] == '<');
                } else if k <= h.len() + l.len() {
                    let j = k - h.len() - 1;
                    assert(p.take(k) =~= (h + open) + l.take(j));
                    lemma_nesting_concat(h + open, l.take(j));
                } else {
                    assert(p[k] == '>');
                }
            }
        },
        Term::Var(v) => {
            lemma_name_nesting(v);
            assert forall|k: int| 0 <= k < v.len() && v[k] == ',' implies nesting(
                #[trigger] v.take(k),
            ) >= 1 by {
                assert(!is_reserved(v[k]));
            }
        },
        Term::Atomic(a) => {
            lemma_name_nesting(a);
            assert forall|k: int| 0 <= k < a.len() && a[k] == ',' implies nesting(
                #[trigger] a.take(k),
            ) >= 1 by {
                assert(!is_reserved(a[k]));
            }
        },
        Term::Reject => {},
    }
}

proof fn lemma_split_no_cut(u: Seq<char>, w: Seq<char>)
    requires
        forall|k: int| 0 <= k < w.len() && w[k] == ',' ==> nesting(u + #[trigger] w.take(k)) != 0,
    ensures
        split_top(u + w) == split_top(u).update(
            split_top(u).len() - 1,
            split_top(u).last() + w,
        ),
    decreases w.len(),
{
    lemma_split_top(u);
    if w.len() == 0 {
        assert(u + w =~= u);
        assert(split_top(u).last() + w =~= split_top(u).last());
        assert(split_top(u).update(split_top(u).len() - 1, split_top(u).last()) =~= split_top(u));
    } else {
        let d = w.drop_last();
        assert forall|k: int| 0 <= k < d.len() && d[k] == ',' implies nesting(
            u + #[trigger] d.take(k),
        ) != 0 by {
            assert(d.take(k) =~= w.take(k));
            assert(w[k] == d[k]);
        }
        lemma_split_no_cut(u, d);
        assert((u + w).drop_last() =~= u + d);
        assert(w.take(d.len() as int) =~= d);
        let prev = split_top(u + d);
        let st = split_top(u);
        assert(split_top(u + w) == prev.update(prev.len() - 1, prev.last().push(w.last())));
        assert(prev.len() == st.len());
        assert(prev.last() == st.last() + d);
        assert((st.last() + d).push(w.last()) =~= st.last() + w);
        assert(split_top(u + w) =~= split_top(u).update(
            split_top(u).len() - 1,
            split_top(u).last() + w,
        ));
    }
}

proof fn lemma_split_comma(u: Seq<char>)
    requires
        nesting(u) == 0,
    ensures
        split_top(u + seq![',']) == split_top(u).push(Seq::empty()),
{
    assert((u + seq![',']).drop_last() =~= u);
}

/// The printed arguments of a compound cut back into the printed terms.
proof fn lemma_split_list(xs: Seq<Term>)
    requires
        xs.len() >= 1,
        forall|i: int| 0 <= i < xs.len() ==> well_formed(#[trigger] xs[i]),
    ensures
        split_top(print_list(xs)) == Seq::new(xs.len(), |i: int| print(xs[i])),
    decreases xs.len(),
{
    let p = print(xs.last());
    lemma_sealed(xs.last());
    if xs.len() == 1 {
        let e = Seq::<char>::empty();
        assert forall|k: int| 0 <= k < p.len() && p[k] == ',' implies nesting(
            e + #[trigger] p.take(k),
        ) != 0 by {
            assert(e + p.take(k) =~= p.take(k));
        }
        lemma_split_no_cut(e, p);
        assert(e + p =~= p);
        assert(split_top(e) =~= seq![e]);
        assert(split_top(print_list(xs)) =~= Seq::new(xs.len(), |i: int| print(xs[i])));
    } else {
        let d = xs.drop_last();
        assert forall|i: int| 0 <= i < d.len() implies well_formed(#[trigger] d[i]) by {
            assert(d[i] == xs[i]);
        }
        lemma_split_list(d);
        lemma_list_balanced(d);
        let l = print_list(d);
        let c: Seq<char> = seq![','];
        lemma_split_comma(l);
        assert(c.drop_last() =~= Seq::<char>::empty());
        assert(nesting(Seq::<char>::empty()) == 0);
        assert(nesting(c) == 0);
        lemma_nesting_concat(l, c);
        assert forall|k: int| 0 <= k < p.len() && p[k] == ',' implies nesting(
            (l + c) + #[trigger] p.take(k),
        ) != 0 by {
            lemma_nesting_concat(l + c, p.take(k));
        }
        lemma_split_no_cut(l + c, p);
        lemma_split_top(l);
        assert(Seq::<char>::empty() + p =~= p);
        assert(split_top(print_list(xs)) =~= Seq::new(xs.len(), |i: int| print(xs[i])));
    }
}

proof fn lemma_find_first(t: Seq<char>, c: char, i: int, j: int)
    requires
        0 <= i <= j < t.len(),
        t[j] == c,
        forall|k: int| i <= k < j ==> t[k] != c,
    ensures
        find_char(t, c, i) == j,
    decreases j - i,
{
    if i < j {
        lemma_find_first(t, c, i + 1, j);
    }
}

proof fn lemma_round_trip_compound(h: Seq<char>, xs: Seq<Term>)
    requires
        well_formed(Term::Compound(h, xs)),
        forall|j: int| 0 <= j < xs.len() ==> parse_term(print(#[trigger] xs[j])) == xs[j],
    ensures
        parse_term(print(Term::Compound(h, xs))) == Term::Compound(h, xs),
{
    let t = Term::Compound(h, xs);
    let l = print_list(xs);
    let s = print(t);
    let body = h + seq!['<'] + l;
    assert(s == body + seq!['>']);
    assert(s.drop_last() =~= body);
    assert(s[0] == h[0]);
    assert forall|k: int| 0 <= k < h.len() implies body[k] != '<' by {
        assert(body[k] == h[k]);
        assert(!is_reserved(h[k]));
    }
    lemma_find_first(body, '<', 0, h.len() as int);
    assert(body.take(h.len() as int) =~= h);
    assert(body.subrange(h.len() as int + 1, body.len() as int) =~= l);
    lemma_split_list(xs);
    let got = parse_term(s);
    assert forall|j: int| 0 <= j < xs.len() implies got->Compound_1[j] == xs[j] by {
        lemma_print_list_len(xs, j);
    }
    assert(got->Compound_1 =~= xs);
}

/// A well-formed term reads back from its printed form.
pub proof fn lemma_round_trip(t: Term)
    requires
        well_formed(t),
    ensures
        parse_term(print(t)) == t,
        print(parse_term(print(t))) == print(t),
    decreases t,
{
    match t {
        Term::Atomic(a) => {
            assert(!is_reserved(a[a.len() - 1]));
        },
        Term::Compound(h, xs) => {
            assert forall|j: int| 0 <= j < xs.len() implies parse_term(print(#[trigger] xs[j]))
                == xs[j] by {
                assert(decreases_to!(t => xs));
                assert(decreases_to!(xs => xs[j]));
                lemma_round_trip(xs[j]);
            }
            lemma_round_trip_compound(h, xs);
        },
        _ => {},
    }
}

proof fn lemma_print_list_len(xs: Seq<Term>, j: int)
    requires
        0 <= j < xs.len(),
    ensures
        print(xs[j]).len() <= print_list(xs).len(),
    decreases xs.len(),
{
    if xs.len() > 1 && j < xs.len() - 1 {
        lemma_print_list_len(xs.drop_last(), j);
        assert(xs.drop_last()[j] == xs[j]);
    }
}

} // verus!
