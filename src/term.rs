//! Terms: the values every other part of the engine works on.
use vstd::prelude::*;

verus! {

broadcast use vstd::std_specs::vec::group_vec_axioms;

/// Mathematical model of a term.
pub enum Term {
    Reject,
    Atomic(Seq<char>),
    Var(Seq<char>),
    Compound(Seq<char>, Seq<Term>),
}

/// A term: a failure marker, a constant, a logic variable, or a named tuple
/// of sub-terms.
pub enum RelogTerm {
    Reject,
    Atomic(String),
    Var(String),
    Compound(String, Vec<RelogTerm>),
}

impl View for RelogTerm {
    type V = Term;

    open spec fn view(&self) -> Term
        decreases self,
    {
        match *self {
            RelogTerm::Reject => Term::Reject,
            RelogTerm::Atomic(a) => Term::Atomic(a@),
            RelogTerm::Var(v) => Term::Var(v@),
            RelogTerm::Compound(h, xs) => Term::Compound(
                h@,
                Seq::new(
                    xs.len() as nat,
                    |i: int|
                        if 0 <= i < xs.len() {
                            xs@[i].view()
                        } else {
                            Term::Reject
                        },
                ),
            ),
        }
    }
}

impl RelogTerm {
    /// A structurally identical copy.
    pub fn duplicate(&self) -> (r: RelogTerm)
        ensures
            r@ == self@,
        decreases self@,
    {
        match self {
            RelogTerm::Reject => RelogTerm::Reject,
            RelogTerm::Atomic(a) => RelogTerm::Atomic(a.clone()),
            RelogTerm::Var(v) => RelogTerm::Var(v.clone()),
            RelogTerm::Compound(h, xs) => {
                let mut ys: Vec<RelogTerm> = Vec::new();
                let mut i: usize = 0;
                while i < xs.len()
                    invariant
                        i <= xs.len(),
                        *self == RelogTerm::Compound(*h, *xs),
                        forall|j: int| 0 <= j < i ==> #[trigger] ys@[j]@ == xs@[j]@,
                        ys@.len() == i,
                    decreases xs.len() - i,
                {
                    proof {
                        assert(decreases_to!(*xs => xs[i as int]));
                        let args = self@->Compound_1;
                        assert(args[i as int] == xs@[i as int]@);
                        assert(decreases_to!(self@ => args));
                        assert(decreases_to!(args => args[i as int]));
                    }
                    ys.push(xs[i].duplicate());
                    i = i + 1;
                }
                let r = RelogTerm::Compound(h.clone(), ys);
                proof {
                    let (a, b) = (r@->Compound_1, self@->Compound_1);
                    assert(a.len() == b.len());
                    assert forall|j: int| 0 <= j < a.len() implies a[j] == b[j] by {
                        assert(ys@[j]@ == xs@[j]@);
                    }
                    assert(a =~= b);
                }
                r
            },
        }
    }
}

} // verus!


verus! {

/// The printed form of a term: `!` for a failure, the name of a constant or
/// variable, and `head<arg,...>` for a compound.
pub open spec fn print(t: Term) -> Seq<char>
    decreases t,
{
    match t {
        Term::Reject => seq!['!'],
        Term::Atomic(a) => a,
        Term::Var(v) => v,
        Term::Compound(h, xs) => h + seq!['<'] + print_list(xs) + seq!['>'],
    }
}

/// The printed forms of `xs`, separated by commas.
pub open spec fn print_list(xs: Seq<Term>) -> Seq<char>
    decreases xs,
{
    if xs.len() == 0 {
        Seq::empty()
    } else if xs.len() == 1 {
        print(xs[0])
    } else {
        print_list(xs.drop_last()) + seq![','] + print(xs.last())
    }
}

/// Relies on `String::push`: the character is appended at the end.
#[verifier::external_body]
pub(crate) fn push_char(s: &mut String, c: char)
    ensures
        final(s)@ == old(s)@.push(c),
{
    s.push(c)
}

pub(crate) fn append_str(out: &mut String, s: &str)
    ensures
        final(out)@ == old(out)@ + s@,
{
    out.append(s);
}

impl RelogTerm {
    /// Appends the printed form of this term to `out`.
    pub(crate) fn write_to(&self, out: &mut String)
        ensures
            final(out)@ == old(out)@ + print(self@),
        decreases self@,
    {
        match self {
            RelogTerm::Reject => {
                push_char(out, '!');
            },
            RelogTerm::Atomic(a) => {
                append_str(out, a.as_str());
            },
            RelogTerm::Var(v) => {
                append_str(out, v.as_str());
            },
            RelogTerm::Compound(h, xs) => {
                let ghost start = out@;
                let ghost args = self@->Compound_1;
                append_str(out, h.as_str());
                push_char(out, '<');
                let mut i: usize = 0;
                while i < xs.len()
                    invariant
                        i <= xs.len(),
                        *self == RelogTerm::Compound(*h, *xs),
                        args == self@->Compound_1,
                        args.len() == xs.len(),
                        forall|j: int| 0 <= j < xs.len() ==> #[trigger] args[j] == xs@[j]@,
                        out@ == start + h@ + seq!['<'] + print_list(args.take(i as int)),
                    decreases xs.len() - i,
                {
                    proof {
                        assert(decreases_to!(self@ => args));
                        assert(decreases_to!(args => args[i as int]));
                        assert(args.take(i as int + 1).drop_last() =~= args.take(i as int));
                    }
                    if i > 0 {
                        push_char(out, ',');
                    }
                    xs[i].write_to(out);
                    proof {
                        let t = args.take(i as int + 1);
                        if i == 0 {
                            assert(print_list(args.take(0)) =~= Seq::<char>::empty());
                            assert(t.len() == 1);
                        }
                        assert(out@ =~= start + h@ + seq!['<'] + print_list(t));
                    }
                    i = i + 1;
                }
                push_char(out, '>');
                proof {
                    assert(args.take(xs.len() as int) =~= args);
                    assert(out@ =~= start + print(self@));
                }
            },
        }
    }

    /// The printed form of this term.
    pub fn to_string(&self) -> (r: String)
        ensures
            r@ == print(self@),
    {
        let mut out = String::new();
        self.write_to(&mut out);
        proof {
            assert(out@ =~= print(self@));
        }
        out
    }
}

pub proof fn lemma_view_variant(t: RelogTerm)
    ensures
        (t@ is Reject) == (t is Reject),
        (t@ is Atomic) == (t is Atomic),
        (t@ is Var) == (t is Var),
        (t@ is Compound) == (t is Compound),
{
}

/// Structural equality of two terms.
pub fn same_term(a: &RelogTerm, b: &RelogTerm) -> (r: bool)
    ensures
        r == (a@ == b@),
    decreases a@,
{
    proof {
        lemma_view_variant(*a);
        lemma_view_variant(*b);
    }
    match a {
        RelogTerm::Reject => match b {
            RelogTerm::Reject => true,
            _ => {
                proof {
                    lemma_view_variant(*b);
                }
                false
            },
        },
        RelogTerm::Atomic(x) => match b {
            RelogTerm::Atomic(y) => *x == *y,
            _ => false,
        },
        RelogTerm::Var(x) => match b {
            RelogTerm::Var(y) => *x == *y,
            _ => false,
        },
        RelogTerm::Compound(h, xs) => match b {
            RelogTerm::Compound(g, ys) => {
                let ghost (ax, bx) = (a@->Compound_1, b@->Compound_1);
                assert(ax.len() == xs.len() && bx.len() == ys.len());
                assert(a@->Compound_0 == h@ && b@->Compound_0 == g@);
                if !(*h == *g) || xs.len() != ys.len() {
                    return false;
                }
                let mut i: usize = 0;
                while i < xs.len()
                    invariant
                        i <= xs.len() == ys.len(),
                        *a == RelogTerm::Compound(*h, *xs),
                        *b == RelogTerm::Compound(*g, *ys),
                        ax == a@->Compound_1,
                        bx == b@->Compound_1,
                        forall|j: int| 0 <= j < i ==> ax[j] == bx[j],
                    decreases xs.len() - i,
                {
                    proof {
                        assert(decreases_to!(a@ => ax));
                        assert(decreases_to!(ax => ax[i as int]));
                        assert(ax[i as int] == xs@[i as int]@);
                        assert(bx[i as int] == ys@[i as int]@);
                    }
                    if !same_term(&xs[i], &ys[i]) {
                        proof {
                            assert(ax[i as int] != bx[i as int]);
                            assert(ax != bx);
                        }
                        return false;
                    }
                    i = i + 1;
                }
                proof {
                    assert(ax =~= bx);
                }
                true
            },
            _ => false,
        },
    }
}

/// The model of an optional term.
pub open spec fn opt_view(r: Option<RelogTerm>) -> Option<Term> {
    match r {
        Some(t) => Some(t@),
        None => None,
    }
}

/// Whether the term is a variable.
pub fn is_var(t: &RelogTerm) -> (r: bool)
    ensures
        r == (t@ is Var),
{
    proof {
        lemma_view_variant(*t);
    }
    match t {
        RelogTerm::Var(_) => true,
        _ => false,
    }
}

/// Whether the term is the failure marker.
pub fn is_reject(t: &RelogTerm) -> (r: bool)
    ensures
        r == (t@ is Reject),
{
    proof {
        lemma_view_variant(*t);
    }
    match t {
        RelogTerm::Reject => true,
        _ => false,
    }
}

} // verus!
