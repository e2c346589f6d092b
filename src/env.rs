//! The environment: a stack of scopes, each with its own bindings and its
//! own set of hidden keys.
//!
//! A child scope is opened for each rule attempt and each variable
//! expansion and closed when that work is done, so the scopes in use always
//! form one path from the root; a stack holds that path.
use vstd::prelude::*;

use crate::prog::{lemma_pair_views_push, pair_views};
use crate::term::{same_term, RelogTerm, Term};

verus! {

broadcast use vstd::std_specs::vec::group_vec_axioms;

/// Mathematical model of one scope: its bindings in the order they were
/// made (a later binding of a key replaces an earlier one) and its hidden
/// keys.
pub struct Scope {
    pub bind: Seq<(Term, Term)>,
    pub block: Seq<Term>,
}

/// Mathematical model of an environment: the recursion mode and the scopes
/// from the root (index 0) to the innermost one.
pub struct Env {
    pub recursive: bool,
    pub scopes: Seq<Scope>,
}

pub open spec fn empty_scope() -> Scope {
    Scope { bind: Seq::empty(), block: Seq::empty() }
}

/// A fresh environment: one empty root scope.
pub open spec fn root_env(recursive: bool) -> Env {
    Env { recursive, scopes: seq![empty_scope()] }
}

/// A new innermost scope, with empty tables.
pub open spec fn child_of(e: Env) -> Env {
    Env { recursive: e.recursive, scopes: e.scopes.push(empty_scope()) }
}

/// Binds `k` to `v` in the innermost scope.
pub open spec fn bind(e: Env, k: Term, v: Term) -> Env {
    let top = e.scopes.last();
    Env {
        recursive: e.recursive,
        scopes: e.scopes.update(
            e.scopes.len() - 1,
            Scope { bind: top.bind.push((k, v)), block: top.block },
        ),
    }
}

/// Hides `k` in the innermost scope and below it; nothing happens in
/// recursive mode.
pub open spec fn block(e: Env, k: Term) -> Env {
    if e.recursive {
        e
    } else {
        let top = e.scopes.last();
        Env {
            recursive: e.recursive,
            scopes: e.scopes.update(
                e.scopes.len() - 1,
                Scope { bind: top.bind, block: top.block.push(k) },
            ),
        }
    }
}

/// The value of the latest binding of `k` in a list of bindings.
pub open spec fn last_value(b: Seq<(Term, Term)>, k: Term) -> Option<Term>
    decreases b.len(),
{
    if b.len() == 0 {
        None
    } else if b.last().0 == k {
        Some(b.last().1)
    } else {
        last_value(b.drop_last(), k)
    }
}

/// The value bound to `k` in the scope nearest the root that binds it.
pub open spec fn bound_value(scopes: Seq<Scope>, k: Term) -> Option<Term>
    decreases scopes.len(),
{
    if scopes.len() == 0 {
        None
    } else {
        match bound_value(scopes.drop_last(), k) {
            Some(v) => Some(v),
            None => last_value(scopes.last().bind, k),
        }
    }
}

/// Some scope of the path hides `k`.
pub open spec fn is_blocked(e: Env, k: Term) -> bool {
    exists|i: int| 0 <= i < e.scopes.len() && #[trigger] e.scopes[i].block.contains(k)
}

/// What `k` stands for: absent if any scope hides it, else the binding
/// nearest the root.
pub open spec fn lookup(e: Env, k: Term) -> Option<Term> {
    if is_blocked(e, k) {
        None
    } else {
        bound_value(e.scopes, k)
    }
}

/// All bindings of all scopes, root first, each scope in binding order.
pub open spec fn all_entries(scopes: Seq<Scope>) -> Seq<(Term, Term)>
    decreases scopes.len(),
{
    if scopes.len() == 0 {
        Seq::empty()
    } else {
        all_entries(scopes.drop_last()) + scopes.last().bind
    }
}

/// The distinct keys of a list of bindings, in order of first appearance.
pub open spec fn first_keys(es: Seq<(Term, Term)>) -> Seq<Term>
    decreases es.len(),
{
    if es.len() == 0 {
        Seq::empty()
    } else {
        let ks = first_keys(es.drop_last());
        if ks.contains(es.last().0) {
            ks
        } else {
            ks.push(es.last().0)
        }
    }
}

/// The keys of `ks` that are not hidden, each with what it stands for.
pub open spec fn visible_from(e: Env, ks: Seq<Term>) -> Seq<(Term, Term)>
    decreases ks.len(),
{
    if ks.len() == 0 {
        Seq::empty()
    } else {
        let prev = visible_from(e, ks.drop_last());
        match lookup(e, ks.last()) {
            Some(v) => prev.push((ks.last(), v)),
            None => prev,
        }
    }
}

/// Every visible binding, in order of first declaration.
pub open spec fn visible(e: Env) -> Seq<(Term, Term)> {
    visible_from(e, first_keys(all_entries(e.scopes)))
}

/// A binding found in the first scopes stays found in the whole path.
proof fn lemma_bound_prefix(sc: Seq<Scope>, k: Term, m: int)
    requires
        0 <= m <= sc.len(),
        bound_value(sc.take(m), k) is Some,
    ensures
        bound_value(sc, k) == bound_value(sc.take(m), k),
    decreases sc.len() - m,
{
    if m < sc.len() {
        assert(sc.take(m + 1).drop_last() =~= sc.take(m));
        lemma_bound_prefix(sc, k, m + 1);
    } else {
        assert(sc.take(m) =~= sc);
    }
}

/// `b` differs from `a` at most in the innermost scope.
pub open spec fn same_below(a: Env, b: Env) -> bool {
    &&& a.recursive == b.recursive
    &&& a.scopes.len() == b.scopes.len()
    &&& a.scopes.drop_last() == b.scopes.drop_last()
}

pub proof fn lemma_same_below(e: Env, k: Term, v: Term)
    requires
        e.scopes.len() >= 1,
    ensures
        same_below(e, bind(e, k, v)),
        same_below(e, block(e, k)),
        child_of(e).scopes.drop_last() == e.scopes,
        child_of(e).scopes.len() == e.scopes.len() + 1,
{
    assert(bind(e, k, v).scopes.drop_last() =~= e.scopes.drop_last());
    assert(block(e, k).scopes.drop_last() =~= e.scopes.drop_last());
    assert(child_of(e).scopes.drop_last() =~= e.scopes);
}

/// The models of a sequence of terms.
pub open spec fn key_views(ks: Seq<RelogTerm>) -> Seq<Term> {
    Seq::new(ks.len(), |i: int| ks[i]@)
}

/// Whether `k` is among `keys`.
fn has_key(keys: &Vec<RelogTerm>, k: &RelogTerm) -> (r: bool)
    ensures
        r == key_views(keys@).contains(k@),
{
    let mut i: usize = 0;
    while i < keys.len()
        invariant
            i <= keys.len(),
            forall|j: int| 0 <= j < i ==> keys@[j]@ != k@,
        decreases keys.len() - i,
    {
        if same_term(&keys[i], k) {
            proof {
                assert(key_views(keys@)[i as int] == k@);
            }
            return true;
        }
        i = i + 1;
    }
    proof {
        assert forall|j: int| 0 <= j < key_views(keys@).len() implies key_views(keys@)[j] != k@ by {
            assert(keys@[j]@ != k@);
        }
    }
    false
}

/// One scope: bindings in the order made, and hidden keys.
struct Frame {
    bind: Vec<(RelogTerm, RelogTerm)>,
    block: Vec<RelogTerm>,
}

impl View for Frame {
    type V = Scope;

    closed spec fn view(&self) -> Scope {
        Scope {
            bind: pair_views(self.bind@),
            block: Seq::new(self.block@.len(), |i: int| self.block@[i]@),
        }
    }
}

impl Frame {
    fn empty() -> (r: Frame)
        ensures
            r@ == empty_scope(),
    {
        let r = Frame { bind: Vec::new(), block: Vec::new() };
        proof {
            assert(r@.bind =~= Seq::empty());
            assert(r@.block =~= Seq::empty());
        }
        r
    }
}

/// The environment of one evaluation: the scopes from the root to the
/// innermost one.
pub struct Context {
    recursive: bool,
    frames: Vec<Frame>,
}

impl View for Context {
    type V = Env;

    closed spec fn view(&self) -> Env {
        Env {
            recursive: self.recursive,
            scopes: Seq::new(self.frames@.len(), |i: int| self.frames@[i]@),
        }
    }
}

impl Context {
    /// A fresh root environment.
    pub fn new(recursive: bool) -> (r: Context)
        ensures
            r@ == root_env(recursive),
    {
        let mut frames: Vec<Frame> = Vec::new();
        frames.push(Frame::empty());
        let r = Context { recursive, frames };
        proof {
            assert(r@.scopes =~= root_env(recursive).scopes);
        }
        r
    }

    /// Opens a new innermost scope.
    pub fn enter(&mut self)
        ensures
            final(self)@ == child_of(old(self)@),
    {
        self.frames.push(Frame::empty());
        proof {
            assert(self@.scopes =~= child_of(old(self)@).scopes);
        }
    }

    /// Closes the innermost scope, dropping its tables.
    pub fn leave(&mut self)
        requires
            old(self)@.scopes.len() > 1,
        ensures
            final(self)@ == (Env { recursive: old(self)@.recursive, scopes: old(self)@.scopes.drop_last() }),
    {
        let _ = self.frames.pop();
        proof {
            assert(self@.scopes =~= old(self)@.scopes.drop_last());
        }
    }

    /// Binds `k` to `v` in the innermost scope.
    pub fn insert(&mut self, k: RelogTerm, v: RelogTerm)
        requires
            old(self)@.scopes.len() >= 1,
        ensures
            final(self)@ == bind(old(self)@, k@, v@),
    {
        let mut top = self.frames.pop().unwrap();
        proof {
            lemma_pair_views_push(top.bind@, (k, v));
        }
        top.bind.push((k, v));
        self.frames.push(top);
        proof {
            assert(self@.scopes =~= bind(old(self)@, k@, v@).scopes);
        }
    }

    /// Hides `k` in the innermost scope and below it, unless in recursive
    /// mode.
    pub fn remove(&mut self, k: &RelogTerm)
        requires
            old(self)@.scopes.len() >= 1,
        ensures
            final(self)@ == block(old(self)@, k@),
    {
        if !self.recursive {
            let mut top = self.frames.pop().unwrap();
            top.block.push(k.duplicate());
            self.frames.push(top);
            proof {
                let want = block(old(self)@, k@).scopes;
                assert(self@.scopes.last().block =~= want.last().block);
                assert(self@.scopes =~= want);
            }
        }
    }

    /// Whether some scope hides `k`.
    fn blocked(&self, k: &RelogTerm) -> (r: bool)
        ensures
            r == is_blocked(self@, k@),
    {
        let mut f: usize = 0;
        while f < self.frames.len()
            invariant
                f <= self.frames.len(),
                forall|i: int| 0 <= i < f ==> !(#[trigger] self@.scopes[i]).block.contains(k@),
            decreases self.frames.len() - f,
        {
            let b = &self.frames[f].block;
            let mut j: usize = 0;
            while j < b.len()
                invariant
                    j <= b.len(),
                    f < self.frames.len(),
                    *b == self.frames@[f as int].block,
                    forall|jj: int| 0 <= jj < j ==> b@[jj]@ != k@,
                decreases b.len() - j,
            {
                if same_term(&b[j], k) {
                    proof {
                        let sb = self@.scopes[f as int].block;
                        assert(sb[j as int] == k@);
                        assert(sb.contains(k@));
                    }
                    return true;
                }
                j = j + 1;
            }
            proof {
                let sb = self@.scopes[f as int].block;
                assert forall|jj: int| 0 <= jj < sb.len() implies sb[jj] != k@ by {
                    assert(sb[jj] == b@[jj]@);
                }
            }
            f = f + 1;
        }
        false
    }

    /// The value of the scope nearest the root that binds `k`.
    fn bound(&self, k: &RelogTerm) -> (r: Option<RelogTerm>)
        ensures
            match r {
                Some(v) => bound_value(self@.scopes, k@) == Some(v@),
                None => bound_value(self@.scopes, k@) is None,
            },
    {
        let ghost sc = self@.scopes;
        let mut f: usize = 0;
        while f < self.frames.len()
            invariant
                f <= self.frames.len(),
                sc == self@.scopes,
                bound_value(sc.take(f as int), k@) is None,
            decreases self.frames.len() - f,
        {
            proof {
                assert(sc.take(f + 1).drop_last() =~= sc.take(f as int));
            }
            let b = &self.frames[f].bind;
            let ghost sb = sc[f as int].bind;
            let mut j: usize = b.len();
            proof {
                assert(sb.take(j as int) =~= sb);
            }
            while j > 0
                invariant
                    j <= b.len(),
                    f < self.frames.len(),
                    sc == self@.scopes,
                    sb == sc[f as int].bind,
                    bound_value(sc.take(f as int), k@) is None,
                    *b == self.frames@[f as int].bind,
                    sb == pair_views(b@),
                    last_value(sb.take(j as int), k@) == last_value(sb, k@),
                decreases j,
            {
                proof {
                    assert(sb.take(j as int).drop_last() =~= sb.take(j - 1));
                }
                if same_term(&b[j - 1].0, k) {
                    proof {
                        assert(sc.take(f + 1).last() == sc[f as int]);
                        assert(sc.take(f + 1).drop_last() =~= sc.take(f as int));
                        lemma_bound_prefix(sc, k@, f + 1);
                    }
                    return Some(b[j - 1].1.duplicate());
                }
                j = j - 1;
            }
            proof {
                assert(sb.take(0) =~= Seq::<(Term, Term)>::empty());
            }
            f = f + 1;
        }
        proof {
            assert(sc.take(f as int) =~= sc);
        }
        None
    }

    /// What `k` stands for here: absent if any scope hides it, else the
    /// binding nearest the root.
    pub fn get(&self, k: &RelogTerm) -> (r: Option<RelogTerm>)
        ensures
            match r {
                Some(v) => lookup(self@, k@) == Some(v@),
                None => lookup(self@, k@) is None,
            },
    {
        if self.blocked(k) {
            None
        } else {
            self.bound(k)
        }
    }

    /// Every visible binding, each key once with the value that `get`
    /// gives, in order of first declaration.
    pub fn iter(&self) -> (r: Vec<(RelogTerm, RelogTerm)>)
        ensures
            pair_views(r@) == visible(self@),
    {
        let ghost sc = self@.scopes;
        let mut keys: Vec<RelogTerm> = Vec::new();
        let mut f: usize = 0;
        proof {
            assert(key_views(keys@) =~= first_keys(all_entries(sc.take(0))));
        }
        while f < self.frames.len()
            invariant
                f <= self.frames.len(),
                sc == self@.scopes,
                key_views(keys@) == first_keys(all_entries(sc.take(f as int))),
            decreases self.frames.len() - f,
        {
            let b = &self.frames[f].bind;
            let ghost before = all_entries(sc.take(f as int));
            let ghost sb = sc[f as int].bind;
            let mut j: usize = 0;
            proof {
                assert(before + sb.take(0) =~= before);
            }
            while j < b.len()
                invariant
                    j <= b.len(),
                    f < self.frames.len(),
                    *b == self.frames@[f as int].bind,
                    sb == pair_views(b@),
                    key_views(keys@) == first_keys(before + sb.take(j as int)),
                decreases b.len() - j,
            {
                let ghost es = before + sb.take(j as int);
                proof {
                    assert(before + sb.take(j + 1) =~= es.push(sb[j as int]));
                    assert(es.push(sb[j as int]).drop_last() =~= es);
                }
                if !has_key(&keys, &b[j].0) {
                    keys.push(b[j].0.duplicate());
                    proof {
                        assert(key_views(keys@) =~= first_keys(es).push(sb[j as int].0));
                    }
                }
                j = j + 1;
            }
            proof {
                assert(sc.take(f + 1).drop_last() =~= sc.take(f as int));
                assert(sb.take(b.len() as int) =~= sb);
            }
            f = f + 1;
        }
        proof {
            assert(sc.take(f as int) =~= sc);
        }
        let ghost ks = key_views(keys@);
        let mut r: Vec<(RelogTerm, RelogTerm)> = Vec::new();
        let mut i: usize = 0;
        proof {
            assert(pair_views(r@) =~= visible_from(self@, ks.take(0)));
        }
        while i < keys.len()
            invariant
                i <= keys.len(),
                ks == key_views(keys@),
                pair_views(r@) == visible_from(self@, ks.take(i as int)),
            decreases keys.len() - i,
        {
            proof {
                assert(ks.take(i + 1).drop_last() =~= ks.take(i as int));
            }
            match self.get(&keys[i]) {
                Some(v) => {
                    let k = keys[i].duplicate();
                    proof {
                        lemma_pair_views_push(r@, (k, v));
                    }
                    r.push((k, v));
                },
                None => {},
            }
            i = i + 1;
        }
        proof {
            assert(ks.take(keys.len() as int) =~= ks);
        }
        r
    }
}

} // verus!
