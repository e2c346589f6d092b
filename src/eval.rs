//! Evaluation: rule application, unification, substitution, and the
//! installation of rules that a program builds while it runs.
//!
//! Rules may refer to each other, and variables may be bound to terms that
//! hold them, so evaluation need not end by itself. Every step therefore
//! carries a depth budget; a step taken with none left stops the whole
//! evaluation, which then fails.
use vstd::prelude::*;

use crate::env::{
    all_entries, bind, block, child_of, first_keys, key_views, lemma_same_below, lookup, root_env,
    same_below, visible, visible_from, Context, Env, Scope,
};
use crate::parse::chars_of;
use crate::prog::{pair_views, parse_prog, parse_relog_prog, Prog};
use crate::term::{is_reject, is_var, lemma_view_variant, opt_view, print, same_term, RelogTerm, Term};

verus! {

broadcast use vstd::std_specs::vec::group_vec_axioms;

/// How deep one evaluation step may nest.
pub const MAX_DEPTH: u64 = 400;

/// The head that makes a unification result install a rule.
pub open spec fn bind_head() -> Seq<char> {
    seq!['B', 'i', 'n', 'd']
}

/// One rewrite step of `x`: the body of the first visible rule whose
/// pattern unifies with `x`, itself rewritten and substituted in the scope
/// of that match; `x` itself when no rule matches or `x` is a variable.
/// `None` when the depth budget runs out.
pub open spec fn apply(e: Env, x: Term, fuel: nat) -> Option<Term>
    decreases fuel, 0nat,
{
    if fuel == 0 {
        None
    } else if x is Var {
        Some(x)
    } else {
        try_rules(e, visible(e), 0, x, (fuel - 1) as nat)
    }
}

/// Tries the rules from index `i` on, in order, against `x`. Each attempt
/// runs in a new scope that hides the rule's pattern.
pub open spec fn try_rules(e: Env, rules: Seq<(Term, Term)>, i: int, x: Term, f: nat) -> Option<Term>
    decreases f, rules.len() - i + 1,
{
    if i < 0 || i >= rules.len() {
        Some(x)
    } else if rules[i].0 is Var {
        try_rules(e, rules, i + 1, x, f)
    } else {
        let c = block(child_of(e), rules[i].0);
        match unify(c, rules[i].0, x, f) {
            None => None,
            Some((u, c2)) => if u is Reject {
                try_rules(e, rules, i + 1, x, f)
            } else {
                match apply(c2, rules[i].1, f) {
                    None => None,
                    Some(b) => reify(c2, b, f),
                }
            },
        }
    }
}

/// Unifies `l` and `r` after one rewrite step of each: the common term and
/// the environment with the bindings it made; `Reject` as the term when they
/// do not unify. No occurs check is made. `None` when the depth budget runs
/// out.
pub open spec fn unify(e: Env, l: Term, r: Term, fuel: nat) -> Option<(Term, Env)>
    decreases fuel, 0nat,
{
    if fuel == 0 {
        None
    } else {
        let f = (fuel - 1) as nat;
        match (apply(e, l, f), apply(e, r, f)) {
            (Some(a), Some(b)) => if a == b {
                Some((a, e))
            } else if a is Var {
                Some((b, bind(e, a, b)))
            } else if b is Var {
                Some((a, bind(e, b, a)))
            } else if a is Compound && b is Compound && a->Compound_0 == b->Compound_0
                && a->Compound_1.len() == b->Compound_1.len() {
                let (xs, ys) = (a->Compound_1, b->Compound_1);
                match unify_args(e, xs, ys, xs.len(), f) {
                    None => None,
                    Some((us, e2)) => if us.contains(Term::Reject) {
                        Some((Term::Reject, e2))
                    } else {
                        Some((Term::Compound(a->Compound_0, us), e2))
                    },
                }
            } else {
                Some((Term::Reject, e))
            },
            _ => None,
        }
    }
}

/// Unifies the first `n` argument pairs left to right, each seeing the
/// bindings made by those before it.
pub open spec fn unify_args(e: Env, xs: Seq<Term>, ys: Seq<Term>, n: nat, f: nat) -> Option<
    (Seq<Term>, Env),
>
    decreases f, n + 1,
{
    if n == 0 {
        Some((Seq::empty(), e))
    } else {
        match unify_args(e, xs, ys, (n - 1) as nat, f) {
            None => None,
            Some((us, e1)) => match unify(e1, xs[n - 1], ys[n - 1], f) {
                None => None,
                Some((u, e2)) => Some((us.push(u), e2)),
            },
        }
    }
}

/// Substitutes every variable of `x` by what it stands for, recursively. A
/// variable is expanded in a new scope that hides it, so a binding never
/// expands itself again. `None` when the depth budget runs out.
pub open spec fn reify(e: Env, x: Term, fuel: nat) -> Option<Term>
    decreases fuel, 0nat,
{
    if fuel == 0 {
        None
    } else {
        let f = (fuel - 1) as nat;
        match x {
            Term::Var(_) => match lookup(e, x) {
                None => Some(x),
                Some(v) => reify(block(child_of(e), x), v, f),
            },
            Term::Compound(h, xs) => match reify_args(e, xs, xs.len(), f) {
                None => None,
                Some(ys) => Some(Term::Compound(h, ys)),
            },
            _ => Some(x),
        }
    }
}

/// Substitutes in each of the first `n` terms of `xs`.
pub open spec fn reify_args(e: Env, xs: Seq<Term>, n: nat, f: nat) -> Option<Seq<Term>>
    decreases f, n + 1,
{
    if n == 0 {
        Some(Seq::empty())
    } else {
        match reify_args(e, xs, (n - 1) as nat, f) {
            None => None,
            Some(ys) => match reify(e, xs[n - 1], f) {
                None => None,
                Some(y) => Some(ys.push(y)),
            },
        }
    }
}

/// Installs a rule for every `Bind<pattern,body>` found in `x`, outermost
/// first, then left to right.
pub open spec fn unpack(e: Env, x: Term) -> Env
    decreases x, 0nat,
{
    match x {
        Term::Compound(g, gs) => {
            let e1 = if g == bind_head() && gs.len() == 2 {
                bind(e, gs[0], gs[1])
            } else {
                e
            };
            unpack_list(e1, gs, gs.len())
        },
        _ => e,
    }
}

/// `unpack` over the first `n` terms of `gs`, in order.
pub open spec fn unpack_list(e: Env, gs: Seq<Term>, n: nat) -> Env
    decreases gs, n,
{
    if n == 0 || n > gs.len() {
        e
    } else {
        unpack(unpack_list(e, gs, (n - 1) as nat), gs[n - 1])
    }
}

proof fn lemma_unify_args_none(e: Env, xs: Seq<Term>, ys: Seq<Term>, n: nat, m: nat, f: nat)
    requires
        n <= m,
        unify_args(e, xs, ys, n, f) is None,
    ensures
        unify_args(e, xs, ys, m, f) is None,
    decreases m,
{
    if n < m {
        lemma_unify_args_none(e, xs, ys, n, (m - 1) as nat, f);
    }
}

proof fn lemma_reify_args_none(e: Env, xs: Seq<Term>, n: nat, m: nat, f: nat)
    requires
        n <= m,
        reify_args(e, xs, n, f) is None,
    ensures
        reify_args(e, xs, m, f) is None,
    decreases m,
{
    if n < m {
        lemma_reify_args_none(e, xs, n, (m - 1) as nat, f);
    }
}

/// One rewrite step of `x` (see `apply`). The environment is left as it
/// was.
#[verifier::loop_isolation(false)]
pub fn relog_apply(ctx: &mut Context, x: &RelogTerm, fuel: u64) -> (r: Option<RelogTerm>)
    requires
        old(ctx)@.scopes.len() >= 1,
    ensures
        final(ctx)@ == old(ctx)@,
        opt_view(r) == apply(old(ctx)@, x@, fuel as nat),
    decreases fuel,
{
    if fuel == 0 {
        return None;
    }
    if is_var(x) {
        return Some(x.duplicate());
    }
    let f = fuel - 1;
    let rules = ctx.iter();
    let ghost e = ctx@;
    let ghost rv = pair_views(rules@);
    let mut i: usize = 0;
    while i < rules.len()
        invariant
            ctx@ == e,
            e.scopes.len() >= 1,
            rv == pair_views(rules@),
            i <= rules.len(),
            try_rules(e, rv, 0, x@, f as nat) == try_rules(e, rv, i as int, x@, f as nat),
            f < fuel,
        decreases rules.len() - i,
    {
        let p = &rules[i].0;
        let body = &rules[i].1;
        if !is_var(p) {
            proof {
                lemma_same_below(e, p@, p@);
                lemma_same_below(child_of(e), p@, p@);
            }
            ctx.enter();
            ctx.remove(p);
            let u = relog_unify(ctx, p, x, f);
            match u {
                None => {
                    ctx.leave();
                    proof {
                        assert(ctx@.scopes =~= e.scopes);
                    }
                    return None;
                },
                Some(u) => {
                    if !is_reject(&u) {
                        let b = relog_apply(ctx, body, f);
                        let r = match b {
                            None => None,
                            Some(b) => relog_reify(ctx, &b, f),
                        };
                        ctx.leave();
                        proof {
                            assert(ctx@.scopes =~= e.scopes);
                        }
                        return r;
                    }
                    ctx.leave();
                    proof {
                        assert(ctx@.scopes =~= e.scopes);
                    }
                },
            }
        }
        i = i + 1;
    }
    Some(x.duplicate())
}

/// Unifies `l` and `r` (see `unify`), making its bindings in the innermost
/// scope; scopes further out are left as they were.
#[verifier::loop_isolation(false)]
pub fn relog_unify(ctx: &mut Context, l: &RelogTerm, r: &RelogTerm, fuel: u64) -> (res: Option<
    RelogTerm,
>)
    requires
        old(ctx)@.scopes.len() >= 1,
    ensures
        same_below(old(ctx)@, final(ctx)@),
        match unify(old(ctx)@, l@, r@, fuel as nat) {
            None => res is None,
            Some((t, e2)) => res is Some && res->0@ == t && final(ctx)@ == e2,
        },
    decreases fuel,
{
    if fuel == 0 {
        return None;
    }
    let f = fuel - 1;
    let ghost e = ctx@;
    let a = match relog_apply(ctx, l, f) {
        None => return None,
        Some(a) => a,
    };
    let b = match relog_apply(ctx, r, f) {
        None => return None,
        Some(b) => b,
    };
    if same_term(&a, &b) {
        return Some(a);
    }
    if is_var(&a) {
        proof {
            lemma_same_below(e, a@, b@);
        }
        ctx.insert(a, b.duplicate());
        return Some(b);
    }
    if is_var(&b) {
        proof {
            lemma_same_below(e, b@, a@);
        }
        ctx.insert(b, a.duplicate());
        return Some(a);
    }
    proof {
        lemma_view_variant(a);
        lemma_view_variant(b);
    }
    match &a {
        RelogTerm::Compound(h, xs) => match &b {
            RelogTerm::Compound(g, ys) => {
                let ghost (xv, yv) = (a@->Compound_1, b@->Compound_1);
                assert(xv.len() == xs.len() && yv.len() == ys.len());
                assert(a@->Compound_0 == h@ && b@->Compound_0 == g@);
                if !(*h == *g) || xs.len() != ys.len() {
                    return Some(RelogTerm::Reject);
                }
                let mut us: Vec<RelogTerm> = Vec::new();
                let mut i: usize = 0;
                proof {
                    assert(key_views(us@) =~= Seq::<Term>::empty());
                }
                while i < xs.len()
                    invariant
                        i <= xs.len() == ys.len(),
                        xv == a@->Compound_1,
                        yv == b@->Compound_1,
                        xv.len() == xs.len(),
                        forall|j: int| 0 <= j < xs.len() ==> #[trigger] xv[j] == xs@[j]@,
                        forall|j: int| 0 <= j < ys.len() ==> #[trigger] yv[j] == ys@[j]@,
                        unify_args(e, xv, yv, i as nat, f as nat) == Some((key_views(us@), ctx@)),
                        same_below(e, ctx@),
                        e.scopes.len() >= 1,
                        f < fuel,
                    decreases xs.len() - i,
                {
                    match relog_unify(ctx, &xs[i], &ys[i], f) {
                        None => {
                            proof {
                                lemma_unify_args_none(
                                    e,
                                    xv,
                                    yv,
                                    (i + 1) as nat,
                                    xv.len(),
                                    f as nat,
                                );
                            }
                            return None;
                        },
                        Some(u) => {
                            proof {
                                assert(key_views(us@.push(u)) =~= key_views(us@).push(u@));
                            }
                            us.push(u);
                        },
                    }
                    i = i + 1;
                }
                let ghost uv = key_views(us@);
                let mut k: usize = 0;
                while k < us.len()
                    invariant
                        k <= us.len(),
                        uv == key_views(us@),
                        forall|j: int| 0 <= j < k ==> uv[j] != Term::Reject,
                    decreases us.len() - k,
                {
                    if is_reject(&us[k]) {
                        proof {
                            assert(uv[k as int] == Term::Reject);
                        }
                        return Some(RelogTerm::Reject);
                    }
                    k = k + 1;
                }
                let res = RelogTerm::Compound(h.clone(), us);
                proof {
                    assert(!uv.contains(Term::Reject));
                    assert(res@->Compound_1 =~= uv);
                }
                Some(res)
            },
            _ => Some(RelogTerm::Reject),
        },
        _ => Some(RelogTerm::Reject),
    }
}

/// Substitutes every variable of `x` by what it stands for (see `reify`).
/// The environment is left as it was.
#[verifier::loop_isolation(false)]
pub fn relog_reify(ctx: &mut Context, x: &RelogTerm, fuel: u64) -> (r: Option<RelogTerm>)
    requires
        old(ctx)@.scopes.len() >= 1,
    ensures
        final(ctx)@ == old(ctx)@,
        opt_view(r) == reify(old(ctx)@, x@, fuel as nat),
    decreases fuel,
{
    if fuel == 0 {
        return None;
    }
    let f = fuel - 1;
    let ghost e = ctx@;
    proof {
        lemma_view_variant(*x);
    }
    match x {
        RelogTerm::Var(_) => match ctx.get(x) {
            None => Some(x.duplicate()),
            Some(v) => {
                proof {
                    lemma_same_below(e, x@, x@);
                    lemma_same_below(child_of(e), x@, x@);
                }
                ctx.enter();
                ctx.remove(x);
                let r = relog_reify(ctx, &v, f);
                ctx.leave();
                proof {
                    assert(ctx@.scopes =~= e.scopes);
                }
                r
            },
        },
        RelogTerm::Compound(h, xs) => {
            let ghost xv = x@->Compound_1;
            let mut ys: Vec<RelogTerm> = Vec::new();
            let mut i: usize = 0;
            proof {
                assert(key_views(ys@) =~= Seq::<Term>::empty());
            }
            while i < xs.len()
                invariant
                    i <= xs.len(),
                    xv == x@->Compound_1,
                    xv.len() == xs.len(),
                    forall|j: int| 0 <= j < xs.len() ==> #[trigger] xv[j] == xs@[j]@,
                    reify_args(e, xv, i as nat, f as nat) == Some(key_views(ys@)),
                    ctx@ == e,
                    e.scopes.len() >= 1,
                    f < fuel,
                decreases xs.len() - i,
            {
                match relog_reify(ctx, &xs[i], f) {
                    None => {
                        proof {
                            lemma_reify_args_none(e, xv, (i + 1) as nat, xv.len(), f as nat);
                        }
                        return None;
                    },
                    Some(y) => {
                        proof {
                            assert(key_views(ys@.push(y)) =~= key_views(ys@).push(y@));
                        }
                        ys.push(y);
                    },
                }
                i = i + 1;
            }
            let r = RelogTerm::Compound(h.clone(), ys);
            proof {
                assert(r@->Compound_1 =~= key_views(ys@));
            }
            Some(r)
        },
        _ => Some(x.duplicate()),
    }
}

/// Installs each rule, in order, in the innermost scope.
pub open spec fn install(e: Env, bs: Seq<(Term, Term)>) -> Env
    decreases bs.len(),
{
    if bs.len() == 0 {
        e
    } else {
        bind(install(e, bs.drop_last()), bs.last().0, bs.last().1)
    }
}

/// One unification statement: both sides rewritten one step, then unified;
/// the substituted result's `Bind` terms are then installed. `None` when the
/// statement fails or the depth budget runs out.
pub open spec fn run_statement(e: Env, st: (Term, Term), fuel: nat) -> Option<Env> {
    match (apply(e, st.0, fuel), apply(e, st.1, fuel)) {
        (Some(a), Some(b)) => match unify(e, a, b, fuel) {
            Some((x, e2)) => if x is Reject {
                None
            } else {
                match reify(e2, x, fuel) {
                    Some(y) => Some(unpack(e2, y)),
                    None => None,
                }
            },
            None => None,
        },
        _ => None,
    }
}

/// The first `n` statements, in order; `None` as soon as one fails.
pub open spec fn run_statements(e: Env, us: Seq<(Term, Term)>, n: nat, fuel: nat) -> Option<Env>
    decreases n,
{
    if n == 0 {
        Some(e)
    } else {
        match run_statements(e, us, (n - 1) as nat, fuel) {
            Some(e1) => run_statement(e1, us[n - 1], fuel),
            None => None,
        }
    }
}

/// The value of a program: all rules installed in a fresh root, the
/// statements run in order, then the return expression rewritten one step
/// and substituted. `Reject` when a statement fails or the depth budget runs
/// out.
pub open spec fn evaluate(recursive: bool, p: Prog) -> Term {
    let fuel = MAX_DEPTH as nat;
    let e0 = install(root_env(recursive), p.bindings);
    match run_statements(e0, p.unifications, p.unifications.len(), fuel) {
        None => Term::Reject,
        Some(e) => match apply(e, p.ret, fuel) {
            None => Term::Reject,
            Some(a) => match reify(e, a, fuel) {
                None => Term::Reject,
                Some(t) => t,
            },
        },
    }
}

/// What running program text prints.
pub open spec fn relog_output(recursive: bool, s: Seq<char>) -> Seq<char> {
    print(evaluate(recursive, parse_prog(s)))
}

/// Whether a head is the reserved `Bind`.
fn is_bind_head(h: &String) -> (r: bool)
    ensures
        r == (h@ == bind_head()),
{
    let cs = chars_of(h.as_str());
    let r = cs.len() == 4 && cs[0] == 'B' && cs[1] == 'i' && cs[2] == 'n' && cs[3] == 'd';
    proof {
        if r {
            assert(cs@ =~= bind_head());
        }
    }
    r
}

/// Installs, in the innermost scope, a rule for every `Bind<pattern,body>`
/// inside `x` (see `unpack`).
#[verifier::loop_isolation(false)]
pub fn unpack_bindings(ctx: &mut Context, x: &RelogTerm)
    requires
        old(ctx)@.scopes.len() >= 1,
    ensures
        final(ctx)@ == unpack(old(ctx)@, x@),
        final(ctx)@.scopes.len() == old(ctx)@.scopes.len(),
    decreases x@,
{
    proof {
        lemma_view_variant(*x);
    }
    match x {
        RelogTerm::Compound(g, gs) => {
            let ghost gv = x@->Compound_1;
            assert(gv.len() == gs.len());
            if is_bind_head(g) && gs.len() == 2 {
                proof {
                    assert(gv[0] == gs@[0]@ && gv[1] == gs@[1]@);
                    lemma_same_below(ctx@, gv[0], gv[1]);
                }
                ctx.insert(gs[0].duplicate(), gs[1].duplicate());
            }
            let ghost e1 = ctx@;
            let mut i: usize = 0;
            while i < gs.len()
                invariant
                    i <= gs.len(),
                    gv == x@->Compound_1,
                    gv.len() == gs.len(),
                    forall|j: int| 0 <= j < gs.len() ==> #[trigger] gv[j] == gs@[j]@,
                    ctx@ == unpack_list(e1, gv, i as nat),
                    ctx@.scopes.len() == old(ctx)@.scopes.len(),
                    old(ctx)@.scopes.len() >= 1,
                decreases gs.len() - i,
            {
                proof {
                    assert(decreases_to!(x@ => gv));
                    assert(decreases_to!(gv => gv[i as int]));
                }
                unpack_bindings(ctx, &gs[i]);
                i = i + 1;
            }
        },
        _ => {},
    }
}

/// Runs a program and returns the printed form of its value; `!` when a
/// statement fails to unify or evaluation nests deeper than `MAX_DEPTH`.
/// With `recursive` set, a rule may fire again inside its own expansion.
#[verifier::loop_isolation(false)]
pub fn relog(recursive: bool, s: &str) -> (r: String)
    ensures
        r@ == relog_output(recursive, s@),
{
    let p = parse_relog_prog(s);
    let ghost pv = p@;
    let mut ctx = Context::new(recursive);
    let mut i: usize = 0;
    while i < p.bindings.len()
        invariant
            i <= p.bindings.len(),
            pv == p@,
            ctx@ == install(root_env(recursive), pv.bindings.take(i as int)),
            ctx@.scopes.len() == 1,
        decreases p.bindings.len() - i,
    {
        proof {
            assert(pv.bindings.take(i + 1).drop_last() =~= pv.bindings.take(i as int));
            lemma_same_below(ctx@, pv.bindings[i as int].0, pv.bindings[i as int].1);
        }
        ctx.insert(p.bindings[i].0.duplicate(), p.bindings[i].1.duplicate());
        i = i + 1;
    }
    proof {
        assert(pv.bindings.take(p.bindings.len() as int) =~= pv.bindings);
    }
    let ghost e0 = ctx@;
    let ghost us = pv.unifications;
    let mut j: usize = 0;
    while j < p.unifications.len()
        invariant
            j <= p.unifications.len(),
            pv == p@,
            us == pv.unifications,
            e0 == install(root_env(recursive), pv.bindings),
            run_statements(e0, us, j as nat, MAX_DEPTH as nat) == Some(ctx@),
            ctx@.scopes.len() == 1,
        decreases p.unifications.len() - j,
    {
        let fail = RelogTerm::Reject;
        let l = &p.unifications[j].0;
        let rt = &p.unifications[j].1;
        proof {
            assert(us[j as int] == (l@, rt@));
        }
        let a = match relog_apply(&mut ctx, l, MAX_DEPTH) {
            Some(a) => a,
            None => {
                proof {
                    lemma_statements_none(e0, us, (j + 1) as nat, us.len(), MAX_DEPTH as nat);
                }
                return fail.to_string();
            },
        };
        let b = match relog_apply(&mut ctx, rt, MAX_DEPTH) {
            Some(b) => b,
            None => {
                proof {
                    lemma_statements_none(e0, us, (j + 1) as nat, us.len(), MAX_DEPTH as nat);
                }
                return fail.to_string();
            },
        };
        let x = match relog_unify(&mut ctx, &a, &b, MAX_DEPTH) {
            Some(x) => x,
            None => {
                proof {
                    lemma_statements_none(e0, us, (j + 1) as nat, us.len(), MAX_DEPTH as nat);
                }
                return fail.to_string();
            },
        };
        if is_reject(&x) {
            proof {
                lemma_statements_none(e0, us, (j + 1) as nat, us.len(), MAX_DEPTH as nat);
            }
            return fail.to_string();
        }
        let y = match relog_reify(&mut ctx, &x, MAX_DEPTH) {
            Some(y) => y,
            None => {
                proof {
                    lemma_statements_none(e0, us, (j + 1) as nat, us.len(), MAX_DEPTH as nat);
                }
                return fail.to_string();
            },
        };
        unpack_bindings(&mut ctx, &y);
        j = j + 1;
    }
    let fail = RelogTerm::Reject;
    let a = match relog_apply(&mut ctx, &p.ret, MAX_DEPTH) {
        Some(a) => a,
        None => return fail.to_string(),
    };
    match relog_reify(&mut ctx, &a, MAX_DEPTH) {
        Some(t) => t.to_string(),
        None => fail.to_string(),
    }
}

proof fn lemma_statements_none(e: Env, us: Seq<(Term, Term)>, n: nat, m: nat, fuel: nat)
    requires
        n <= m,
        run_statements(e, us, n, fuel) is None,
    ensures
        run_statements(e, us, m, fuel) is None,
    decreases m,
{
    if n < m {
        lemma_statements_none(e, us, n, (m - 1) as nat, fuel);
    }
}

/// No rule is visible: every visible binding has a variable as its key.
pub open spec fn no_visible_rule(e: Env) -> bool {
    forall|i: int| 0 <= i < visible(e).len() ==> (#[trigger] visible(e)[i]).0 is Var
}

proof fn lemma_try_no_rule(e: Env, rules: Seq<(Term, Term)>, i: int, x: Term, f: nat)
    requires
        0 <= i,
        forall|j: int| 0 <= j < rules.len() ==> (#[trigger] rules[j]).0 is Var,
    ensures
        try_rules(e, rules, i, x, f) == Some(x),
    decreases rules.len() - i,
{
    if i < rules.len() {
        lemma_try_no_rule(e, rules, i + 1, x, f);
    }
}

/// Where no rule is visible, one rewrite step leaves any term as it is.
pub proof fn lemma_apply_no_rule(e: Env, x: Term, fuel: nat)
    requires
        fuel >= 1,
        no_visible_rule(e),
    ensures
        apply(e, x, fuel) == Some(x),
{
    if !(x is Var) {
        lemma_try_no_rule(e, visible(e), 0, x, (fuel - 1) as nat);
    }
}

/// A term unified with itself gives its own rewrite step and makes no
/// binding.
pub proof fn lemma_unify_self_rewrite(e: Env, a: Term, fuel: nat)
    requires
        fuel >= 1,
        apply(e, a, (fuel - 1) as nat) is Some,
    ensures
        unify(e, a, a, fuel) == Some((apply(e, a, (fuel - 1) as nat)->0, e)),
{
}

/// A term unified with itself, where no rule can rewrite it, gives the term
/// back unchanged and makes no binding.
pub proof fn lemma_unify_self(e: Env, a: Term, fuel: nat)
    requires
        fuel >= 2,
        no_visible_rule(e),
    ensures
        unify(e, a, a, fuel) == Some((a, e)),
{
    lemma_apply_no_rule(e, a, (fuel - 1) as nat);
    lemma_unify_self_rewrite(e, a, fuel);
}

/// Once both sides are rewritten, two compounds whose heads or arities
/// differ do not unify, whatever their arguments, and no binding is made.
pub proof fn lemma_unify_mismatch(e: Env, l: Term, r: Term, fuel: nat)
    requires
        fuel >= 1,
        apply(e, l, (fuel - 1) as nat) is Some,
        apply(e, r, (fuel - 1) as nat) is Some,
        shapes_differ(apply(e, l, (fuel - 1) as nat)->0, apply(e, r, (fuel - 1) as nat)->0),
    ensures
        unify(e, l, r, fuel) == Some((Term::Reject, e)),
{
}

/// Where no rule is visible, two compounds whose heads or arities differ do
/// not unify, whatever their arguments, and no binding is made.
pub proof fn lemma_unify_mismatch_plain(e: Env, l: Term, r: Term, fuel: nat)
    requires
        fuel >= 2,
        no_visible_rule(e),
        shapes_differ(l, r),
    ensures
        unify(e, l, r, fuel) == Some((Term::Reject, e)),
{
    lemma_apply_no_rule(e, l, (fuel - 1) as nat);
    lemma_apply_no_rule(e, r, (fuel - 1) as nat);
}

/// Both are compounds, with different heads or different arities.
pub open spec fn shapes_differ(a: Term, b: Term) -> bool {
    &&& a is Compound
    &&& b is Compound
    &&& (a->Compound_0 != b->Compound_0 || a->Compound_1.len() != b->Compound_1.len())
}

/// Every binding of every scope has a variable as its key.
pub open spec fn no_rules(e: Env) -> bool {
    forall|i: int, j: int|
        0 <= i < e.scopes.len() && 0 <= j < e.scopes[i].bind.len() ==> (
        #[trigger] e.scopes[i].bind[j]).0 is Var
}

/// The term of a unification that came back.
pub open spec fn got_term(o: Option<(Term, Env)>) -> Term {
    match o {
        Some((t, _)) => t,
        None => Term::Reject,
    }
}

/// The environment of a unification that came back.
pub open spec fn got_env(o: Option<(Term, Env)>) -> Env {
    match o {
        Some((_, e)) => e,
        None => root_env(false),
    }
}

/// The terms of an argument unification that came back.
pub open spec fn got_terms(o: Option<(Seq<Term>, Env)>) -> Seq<Term> {
    match o {
        Some((ts, _)) => ts,
        None => Seq::empty(),
    }
}

/// A unification that came back and gave `Reject`.
pub open spec fn rejects(o: Option<(Term, Env)>) -> bool {
    o is Some && got_term(o) is Reject
}

proof fn lemma_entries_vars(sc: Seq<Scope>)
    requires
        forall|i: int, j: int|
            0 <= i < sc.len() && 0 <= j < sc[i].bind.len() ==> (#[trigger] sc[i].bind[j]).0 is Var,
    ensures
        forall|j: int| 0 <= j < all_entries(sc).len() ==> (#[trigger] all_entries(sc)[j]).0 is Var,
    decreases sc.len(),
{
    if sc.len() > 0 {
        let d = sc.drop_last();
        assert forall|i: int, j: int| 0 <= i < d.len() && 0 <= j < d[i].bind.len() implies (
        #[trigger] d[i].bind[j]).0 is Var by {
            assert(d[i] == sc[i]);
        }
        lemma_entries_vars(d);
        let a = all_entries(d);
        let b = sc.last().bind;
        assert forall|j: int| 0 <= j < all_entries(sc).len() implies (
        #[trigger] all_entries(sc)[j]).0 is Var by {
            if j >= a.len() {
                assert(all_entries(sc)[j] == b[j - a.len()]);
                assert(sc[sc.len() - 1].bind[j - a.len()] == b[j - a.len()]);
            }
        }
    }
}

proof fn lemma_first_keys_vars(es: Seq<(Term, Term)>)
    requires
        forall|j: int| 0 <= j < es.len() ==> (#[trigger] es[j]).0 is Var,
    ensures
        forall|i: int| 0 <= i < first_keys(es).len() ==> (#[trigger] first_keys(es)[i]) is Var,
    decreases es.len(),
{
    if es.len() > 0 {
        let d = es.drop_last();
        assert forall|j: int| 0 <= j < d.len() implies (#[trigger] d[j]).0 is Var by {
            assert(d[j] == es[j]);
        }
        lemma_first_keys_vars(d);
    }
}

proof fn lemma_visible_from_vars(e: Env, ks: Seq<Term>)
    requires
        forall|i: int| 0 <= i < ks.len() ==> (#[trigger] ks[i]) is Var,
    ensures
        forall|i: int|
            0 <= i < visible_from(e, ks).len() ==> (#[trigger] visible_from(e, ks)[i]).0 is Var,
    decreases ks.len(),
{
    if ks.len() > 0 {
        let d = ks.drop_last();
        assert forall|i: int| 0 <= i < d.len() implies (#[trigger] d[i]) is Var by {
            assert(d[i] == ks[i]);
        }
        lemma_visible_from_vars(e, d);
    }
}

/// Without rules in any scope, no rule is visible.
pub proof fn lemma_no_rules_visible(e: Env)
    requires
        no_rules(e),
    ensures
        no_visible_rule(e),
{
    lemma_entries_vars(e.scopes);
    lemma_first_keys_vars(all_entries(e.scopes));
    lemma_visible_from_vars(e, first_keys(all_entries(e.scopes)));
}

proof fn lemma_bind_var_no_rules(e: Env, k: Term, v: Term)
    requires
        no_rules(e),
        e.scopes.len() >= 1,
        k is Var,
    ensures
        no_rules(bind(e, k, v)),
        bind(e, k, v).scopes.len() == e.scopes.len(),
{
    let e2 = bind(e, k, v);
    assert forall|i: int, j: int|
        0 <= i < e2.scopes.len() && 0 <= j < e2.scopes[i].bind.len() implies (
        #[trigger] e2.scopes[i].bind[j]).0 is Var by {
        if i < e.scopes.len() - 1 {
            assert(e2.scopes[i] == e.scopes[i]);
        } else if j < e.scopes[i].bind.len() {
            assert(e2.scopes[i].bind[j] == e.scopes[i].bind[j]);
        }
    }
}

proof fn lemma_contains_reject(us: Seq<Term>, vs: Seq<Term>)
    requires
        us.len() == vs.len(),
        forall|j: int| 0 <= j < us.len() ==> ((#[trigger] us[j]) is Reject <==> vs[j] is Reject),
    ensures
        us.contains(Term::Reject) == vs.contains(Term::Reject),
{
    if us.contains(Term::Reject) {
        let j = choose|j: int| 0 <= j < us.len() && us[j] == Term::Reject;
        assert(vs[j] == Term::Reject);
    }
    if vs.contains(Term::Reject) {
        let j = choose|j: int| 0 <= j < vs.len() && vs[j] == Term::Reject;
        assert(us[j] is Reject);
    }
}

proof fn lemma_unify_swap(e1: Env, e2: Env, l: Term, r: Term, fuel: nat)
    requires
        no_rules(e1),
        no_rules(e2),
        e1.scopes.len() >= 1,
        e2.scopes.len() >= 1,
    ensures
        (unify(e1, l, r, fuel) is None) == (unify(e2, r, l, fuel) is None),
        unify(e1, l, r, fuel) is Some ==> {
            &&& no_rules(got_env(unify(e1, l, r, fuel)))
            &&& no_rules(got_env(unify(e2, r, l, fuel)))
            &&& got_env(unify(e1, l, r, fuel)).scopes.len() == e1.scopes.len()
            &&& got_env(unify(e2, r, l, fuel)).scopes.len() == e2.scopes.len()
            &&& (got_term(unify(e1, l, r, fuel)) is Reject) == (got_term(unify(e2, r, l, fuel)) is Reject)
        },
    decreases fuel, 0nat,
{
    if fuel >= 2 {
        let f = (fuel - 1) as nat;
        lemma_no_rules_visible(e1);
        lemma_no_rules_visible(e2);
        lemma_apply_no_rule(e1, l, f);
        lemma_apply_no_rule(e1, r, f);
        lemma_apply_no_rule(e2, l, f);
        lemma_apply_no_rule(e2, r, f);
        if l == r {
        } else if l is Var {
            lemma_bind_var_no_rules(e1, l, r);
            if r is Var {
                lemma_bind_var_no_rules(e2, r, l);
            }
        } else if r is Var {
            lemma_bind_var_no_rules(e1, r, l);
            lemma_bind_var_no_rules(e2, r, l);
        } else if l is Compound && r is Compound && l->Compound_0 == r->Compound_0
            && l->Compound_1.len() == r->Compound_1.len() {
            let (xs, ys) = (l->Compound_1, r->Compound_1);
            lemma_args_swap(e1, e2, xs, ys, xs.len(), f);
            if unify_args(e1, xs, ys, xs.len(), f) is Some {
                lemma_contains_reject(
                    got_terms(unify_args(e1, xs, ys, xs.len(), f)),
                    got_terms(unify_args(e2, ys, xs, xs.len(), f)),
                );
            }
        }
    } else if fuel == 1 {
        assert(apply(e1, l, 0) is None);
        assert(apply(e2, r, 0) is None);
    }
}

proof fn lemma_args_swap(e1: Env, e2: Env, xs: Seq<Term>, ys: Seq<Term>, n: nat, f: nat)
    requires
        no_rules(e1),
        no_rules(e2),
        e1.scopes.len() >= 1,
        e2.scopes.len() >= 1,
        n <= xs.len(),
        n <= ys.len(),
    ensures
        (unify_args(e1, xs, ys, n, f) is None) == (unify_args(e2, ys, xs, n, f) is None),
        unify_args(e1, xs, ys, n, f) is Some ==> {
            let (us, g1) = unify_args(e1, xs, ys, n, f)->0;
            let (vs, g2) = unify_args(e2, ys, xs, n, f)->0;
            &&& no_rules(g1) && no_rules(g2)
            &&& g1.scopes.len() == e1.scopes.len() && g2.scopes.len() == e2.scopes.len()
            &&& us.len() == n && vs.len() == n
            &&& forall|j: int| 0 <= j < n ==> ((#[trigger] us[j]) is Reject <==> vs[j] is Reject)
        },
    decreases f, n + 1,
{
    if n > 0 {
        let m = (n - 1) as nat;
        lemma_args_swap(e1, e2, xs, ys, m, f);
        if unify_args(e1, xs, ys, m, f) is Some {
            let (us, g1) = unify_args(e1, xs, ys, m, f)->0;
            let (vs, g2) = unify_args(e2, ys, xs, m, f)->0;
            lemma_unify_swap(g1, g2, xs[n - 1], ys[n - 1], f);
            if unify(g1, xs[n - 1], ys[n - 1], f) is Some {
                let u = got_term(unify(g1, xs[n - 1], ys[n - 1], f));
                let v = got_term(unify(g2, ys[n - 1], xs[n - 1], f));
                assert forall|j: int| 0 <= j < n implies (#[trigger] us.push(u)[j]) is Reject
                    <==> vs.push(v)[j] is Reject by {
                    if j < m {
                        assert(us.push(u)[j] == us[j]);
                        assert(vs.push(v)[j] == vs[j]);
                    }
                }
            }
        }
    }
}

/// Where no scope holds a rule, `unify(l, r)` fails exactly when
/// `unify(r, l)` fails, and runs out of depth exactly when the other does.
pub proof fn lemma_unify_reject_symmetric(e: Env, l: Term, r: Term, fuel: nat)
    requires
        no_rules(e),
        e.scopes.len() >= 1,
    ensures
        rejects(unify(e, l, r, fuel)) == rejects(unify(e, r, l, fuel)),
        (unify(e, l, r, fuel) is None) == (unify(e, r, l, fuel) is None),
{
    lemma_unify_swap(e, e, l, r, fuel);
}

} // verus!
