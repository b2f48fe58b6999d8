//! The global symbol table and the evaluator.
use std::rc::Rc;
use vstd::prelude::*;

use crate::arithmetic::{apply, apply_outcome, lemma_apply_profile, same_profile};
use crate::error::RuntimeError;
use crate::expression::{
    delivers, exact, int_value, lemma_admits_profile, rank, Builtin, Expression, Outcome,
};
use crate::numeric::Numeric;

verus! {

/// The symbols bound to values; a later binding of a name hides an earlier one.
pub open spec fn table_view<N: Numeric>(s: Seq<(String, Rc<Expression<N>>)>) -> Map<
    Seq<char>,
    Expression<N>,
>
    decreases s.len(),
{
    if s.len() == 0 {
        Map::empty()
    } else {
        table_view(s.drop_last()).insert(s.last().0@, *s.last().1)
    }
}

/// The bindings of a fresh environment: each operator name to its native function.
pub open spec fn builtin_table<N: Numeric>() -> Map<Seq<char>, Expression<N>> {
    map![
        seq!['+'] => Expression::NativeFunction(Builtin::Add),
        seq!['-'] => Expression::NativeFunction(Builtin::Sub),
        seq!['*'] => Expression::NativeFunction(Builtin::Mul),
        seq!['/'] => Expression::NativeFunction(Builtin::Div),
        seq!['m', 'i', 'n'] => Expression::NativeFunction(Builtin::Min),
        seq!['m', 'a', 'x'] => Expression::NativeFunction(Builtin::Max),
        seq!['='] => Expression::NativeFunction(Builtin::Eq),
        seq!['<'] => Expression::NativeFunction(Builtin::Lt),
        seq!['<', '='] => Expression::NativeFunction(Builtin::Le),
        seq!['>'] => Expression::NativeFunction(Builtin::Gt),
        seq!['>', '='] => Expression::NativeFunction(Builtin::Ge),
    ]
}

/// What evaluating `e` against the bindings `env` yields. Atoms other than
/// symbols evaluate to themselves; a symbol to its binding; an application
/// evaluates its head, which must be a native function, then its arguments
/// from left to right, and applies the one to the others.
pub open spec fn eval_outcome<N: Numeric>(env: Map<Seq<char>, Expression<N>>, e: Expression<N>) -> Result<
    Outcome<N>,
    RuntimeError,
>
    decreases e,
{
    match e {
        Expression::Symbol(s) => if env.contains_key(s@) {
            Ok(Outcome::Exactly(env[s@]))
        } else {
            Err(RuntimeError::UnboundSymbol(s))
        },
        Expression::Cons { first, rest } => match eval_outcome(env, *first) {
            Err(err) => Err(err),
            Ok(Outcome::Exactly(Expression::NativeFunction(b))) => match args_outcome(env, *rest) {
                Err(err) => Err(err),
                Ok(outs) => apply_outcome(b, outs),
            },
            Ok(_) => Err(RuntimeError::NotCallable),
        },
        _ => Ok(Outcome::Exactly(e)),
    }
}

/// What evaluating the elements of the list `l`, left to right, yields; the
/// first failure ends the walk, and a tail other than `Nil` or a list cell is
/// an `ImproperList`.
pub open spec fn args_outcome<N: Numeric>(env: Map<Seq<char>, Expression<N>>, l: Expression<N>) -> Result<
    Seq<Outcome<N>>,
    RuntimeError,
>
    decreases l,
{
    match l {
        Expression::Nil => Ok(seq![]),
        Expression::Cons { first, rest } => match eval_outcome(env, *first) {
            Err(err) => Err(err),
            Ok(o) => match args_outcome(env, *rest) {
                Err(err) => Err(err),
                Ok(outs) => Ok(seq![o] + outs),
            },
        },
        _ => Err(RuntimeError::ImproperList),
    }
}

/// What the head of the list cell `l` evaluates to.
spec fn head_outcome<N: Numeric>(env: Map<Seq<char>, Expression<N>>, l: Expression<N>) -> Outcome<
    N,
> {
    eval_outcome(env, *l->first)->Ok_0
}

/// What the elements after the head of the list cell `l` evaluate to.
spec fn tail_outcome<N: Numeric>(env: Map<Seq<char>, Expression<N>>, l: Expression<N>) -> Result<
    Seq<Outcome<N>>,
    RuntimeError,
> {
    args_outcome(env, *l->rest)
}

spec fn shared<N: Numeric>(r: &Rc<Expression<N>>) -> Expression<N> {
    **r
}

proof fn lemma_push_outcome<N: Numeric>(
    env: Map<Seq<char>, Expression<N>>,
    l: Expression<N>,
    outs: Seq<Outcome<N>>,
)
    requires
        l is Cons,
        eval_outcome(env, *l->first) is Ok,
    ensures
        prepend(outs, args_outcome(env, l)) == prepend(
            outs.push(head_outcome(env, l)),
            tail_outcome(env, l),
        ),
{
    let o = head_outcome(env, l);
    if tail_outcome(env, l) is Ok {
        let tail = tail_outcome(env, l)->Ok_0;
        assert(outs + (seq![o] + tail) =~= outs.push(o) + tail);
    }
}

spec fn prepend<N: Numeric>(outs: Seq<Outcome<N>>, r: Result<Seq<Outcome<N>>, RuntimeError>) -> Result<
    Seq<Outcome<N>>,
    RuntimeError,
> {
    match r {
        Ok(s) => Ok(outs + s),
        Err(e) => Err(e),
    }
}

/// `k` is one of `names`.
pub open spec fn listed(names: Seq<String>, k: Seq<char>) -> bool {
    exists|a: int| 0 <= a < names.len() && (#[trigger] names[a])@ == k
}

/// `k` names one of the first `i` entries of a table.
pub open spec fn named_before<N: Numeric>(s: Seq<(String, Rc<Expression<N>>)>, i: int, k: Seq<char>) -> bool {
    exists|c: int| 0 <= c < i && (#[trigger] s[c]).0@ == k
}

/// The names bound in a table are the names of its entries.
proof fn lemma_table_domain<N: Numeric>(s: Seq<(String, Rc<Expression<N>>)>)
    ensures
        forall|k: Seq<char>| #[trigger] table_view(s).contains_key(k) <==> named_before(s, s.len() as int, k),
    decreases s.len(),
{
    if s.len() > 0 {
        let init = s.drop_last();
        lemma_table_domain(init);
        assert forall|k: Seq<char>| #[trigger] table_view(s).contains_key(k) <==> named_before(s, s.len() as int, k) by {
            if table_view(init).contains_key(k) {
                let c = choose|c: int| 0 <= c < init.len() && (#[trigger] init[c]).0@ == k;
                assert(s[c] == init[c]);
            }
            if named_before(s, s.len() as int, k) {
                let c = choose|c: int| 0 <= c < s.len() && (#[trigger] s[c]).0@ == k;
                if c < s.len() - 1 {
                    assert(init[c] == s[c]);
                    assert(named_before(init, init.len() as int, k));
                }
            }
        }
    }
}

/// Whether `name` is among `names`.
fn contains_name(names: &Vec<String>, name: &String) -> (r: bool)
    ensures
        r == listed(names@, name@),
{
    let mut i: usize = 0;
    while i < names.len()
        invariant
            i <= names@.len(),
            forall|a: int| 0 <= a < i ==> (#[trigger] names@[a])@ != name@,
        decreases names@.len() - i,
    {
        if names[i] == *name {
            return true;
        }
        i += 1;
    }
    false
}

/// A symbol table, built once with the native operators and read from then on.
pub struct Environment<N: Numeric> {
    symbols_table: Vec<(String, Rc<Expression<N>>)>,
}

impl<N: Numeric> View for Environment<N> {
    type V = Map<Seq<char>, Expression<N>>;

    closed spec fn view(&self) -> Map<Seq<char>, Expression<N>> {
        table_view(self.symbols_table@)
    }
}

impl<N: Numeric> Environment<N> {
    /// Binds `name` to the native function `b`.
    fn bind(t: &mut Vec<(String, Rc<Expression<N>>)>, name: &str, b: Builtin)
        ensures
            table_view(final(t)@) == table_view(old(t)@).insert(
                name@,
                Expression::<N>::NativeFunction(b),
            ),
    {
        t.push((String::from_str(name), Rc::new(Expression::NativeFunction(b))));
        assert(final(t)@.drop_last() =~= old(t)@);
    }

    /// The table with every native operator bound to its name.
    fn create_symbols_map() -> (r: Vec<(String, Rc<Expression<N>>)>)
        ensures
            table_view(r@) == builtin_table::<N>(),
    {
        let mut t: Vec<(String, Rc<Expression<N>>)> = Vec::new();
        assert(table_view(t@) == Map::<Seq<char>, Expression<N>>::empty());
        Self::bind(&mut t, "+", Builtin::Add);
        Self::bind(&mut t, "-", Builtin::Sub);
        Self::bind(&mut t, "*", Builtin::Mul);
        Self::bind(&mut t, "/", Builtin::Div);
        Self::bind(&mut t, "min", Builtin::Min);
        Self::bind(&mut t, "max", Builtin::Max);
        Self::bind(&mut t, "=", Builtin::Eq);
        Self::bind(&mut t, "<", Builtin::Lt);
        Self::bind(&mut t, "<=", Builtin::Le);
        Self::bind(&mut t, ">", Builtin::Gt);
        Self::bind(&mut t, ">=", Builtin::Ge);
        proof {
            reveal_strlit("+");
            reveal_strlit("-");
            reveal_strlit("*");
            reveal_strlit("/");
            reveal_strlit("min");
            reveal_strlit("max");
            reveal_strlit("=");
            reveal_strlit("<");
            reveal_strlit("<=");
            reveal_strlit(">");
            reveal_strlit(">=");
            assert("min"@ =~= seq!['m', 'i', 'n']);
            assert("max"@ =~= seq!['m', 'a', 'x']);
            assert("<="@ =~= seq!['<', '=']);
            assert(">="@ =~= seq!['>', '=']);
            assert("+"@ =~= seq!['+']);
            assert("-"@ =~= seq!['-']);
            assert("*"@ =~= seq!['*']);
            assert("/"@ =~= seq!['/']);
            assert("="@ =~= seq!['=']);
            assert("<"@ =~= seq!['<']);
            assert(">"@ =~= seq!['>']);
            assert(table_view(t@) =~= builtin_table::<N>());
        }
        t
    }

    /// A fresh environment: exactly the native operators, each under its name.
    pub fn new() -> (r: Environment<N>)
        ensures
            r@ == builtin_table::<N>(),
    {
        Environment { symbols_table: Environment::create_symbols_map() }
    }
    /// The names that are bound, one entry for each.
    pub fn symbols_table(&self) -> (r: Vec<String>)
        ensures
            forall|k: Seq<char>| self@.contains_key(k) <==> #[trigger] listed(r@, k),
            forall|i: int, j: int| 0 <= i < j < r@.len() ==> r@[i]@ != r@[j]@,
    {
        proof {
            lemma_table_domain(self.symbols_table@);
        }
        let mut names: Vec<String> = Vec::new();
        let n = self.symbols_table.len();
        let mut i: usize = 0;
        while i < n
            invariant
                i <= n,
                n == self.symbols_table@.len(),
                forall|a: int, b: int| 0 <= a < b < names@.len() ==> names@[a]@ != names@[b]@,
                forall|k: Seq<char>|
                    #[trigger] listed(names@, k) <==> named_before(self.symbols_table@, i as int, k),
            decreases n - i,
        {
            let name = &self.symbols_table[i].0;
            let ghost before = names@;
            if !contains_name(&names, name) {
                names.push(name.clone());
                proof {
                    assert(names@.drop_last() =~= before);
                    assert(forall|a: int| 0 <= a < before.len() ==> names@[a] == before[a]);
                    assert(names@[before.len() as int]@ == name@);
                    assert forall|k: Seq<char>|
                        #[trigger] listed(names@, k) <== named_before(
                            self.symbols_table@,
                            i + 1,
                            k,
                        ) by {
                        if named_before(self.symbols_table@, i + 1, k) {
                            let c = choose|c: int|
                                0 <= c < i + 1 && (#[trigger] self.symbols_table@[c]).0@ == k;
                            if c < i {
                                assert(named_before(self.symbols_table@, i as int, k));
                                assert(listed(before, k));
                                let a = choose|a: int|
                                    0 <= a < before.len() && (#[trigger] before[a])@ == k;
                                assert(names@[a] == before[a]);
                            } else {
                                assert(names@[before.len() as int]@ == k);
                            }
                        }
                    }
                    assert forall|k: Seq<char>|
                        #[trigger] listed(names@, k) ==> named_before(
                            self.symbols_table@,
                            i + 1,
                            k,
                        ) by {
                        if listed(names@, k) {
                            let a = choose|a: int| 0 <= a < names@.len() && (#[trigger] names@[a])@ == k;
                            if a < before.len() {
                                assert(before[a] == names@[a]);
                                assert(listed(before, k));
                                let c = choose|c: int|
                                    0 <= c < i && (#[trigger] self.symbols_table@[c]).0@ == k;
                                assert(0 <= c < i + 1);
                            } else {
                                assert(self.symbols_table@[i as int].0@ == k);
                            }
                        }
                    }
                }
            } else {
                proof {
                    assert forall|k: Seq<char>|
                        #[trigger] listed(names@, k) == named_before(self.symbols_table@, i + 1, k) by {
                        if named_before(self.symbols_table@, i + 1, k) {
                            let c = choose|c: int|
                                0 <= c < i + 1 && (#[trigger] self.symbols_table@[c]).0@ == k;
                            if c == i {
                                assert(listed(names@, name@));
                            } else {
                                assert(named_before(self.symbols_table@, i as int, k));
                            }
                        }
                        if listed(names@, k) {
                            assert(named_before(self.symbols_table@, i as int, k));
                            let c = choose|c: int|
                                0 <= c < i && (#[trigger] self.symbols_table@[c]).0@ == k;
                            assert(0 <= c < i + 1);
                        }
                    }
                }
            }
            i += 1;
        }
        proof {
            assert forall|k: Seq<char>| self@.contains_key(k) <==> #[trigger] listed(names@, k) by {
                assert(named_before(self.symbols_table@, n as int, k) == table_view(
                    self.symbols_table@,
                ).contains_key(k));
            }
        }
        names
    }

    /// The value bound to `name`.
    pub fn lookup_symbol(&self, name: &String) -> (r: Result<Rc<Expression<N>>, RuntimeError>)
        ensures
            match r {
                Ok(v) => self@.contains_key(name@) && *v == self@[name@],
                Err(e) => !self@.contains_key(name@) && e == RuntimeError::UnboundSymbol(*name),
            },
    {
        let n = self.symbols_table.len();
        let mut i: usize = n;
        assert(self.symbols_table@.subrange(0, n as int) =~= self.symbols_table@);
        while i > 0
            invariant
                i <= n,
                n == self.symbols_table@.len(),
                table_view(self.symbols_table@).contains_key(name@) == table_view(
                    self.symbols_table@.subrange(0, i as int),
                ).contains_key(name@),
                table_view(self.symbols_table@)[name@] == table_view(
                    self.symbols_table@.subrange(0, i as int),
                )[name@],
            decreases i,
        {
            let ghost pre = self.symbols_table@.subrange(0, i as int);
            assert(pre.drop_last() =~= self.symbols_table@.subrange(0, i - 1));
            if self.symbols_table[i - 1].0 == *name {
                return Ok(self.symbols_table[i - 1].1.clone());
            }
            i -= 1;
        }
        assert(self.symbols_table@.subrange(0, 0).len() == 0);
        Err(RuntimeError::UnboundSymbol(name.clone()))
    }

    /// Evaluates one expression. Nothing in the environment changes.
    pub fn eval(&self, token: Rc<Expression<N>>) -> (r: Result<Rc<Expression<N>>, RuntimeError>)
        ensures
            delivers(r, eval_outcome(self@, *token)),
        decreases *token,
    {
        match &*token {
            Expression::Symbol(v) => {
                return self.lookup_symbol(v);
            },
            Expression::Cons { first, rest } => {
                let head = self.eval(first.clone())?;
                let b = match &*head {
                    Expression::NativeFunction(b) => *b,
                    _ => {
                        return Err(RuntimeError::NotCallable);
                    },
                };
                // the arguments, each evaluated in turn from the left
                let mut arguments: Vec<Rc<Expression<N>>> = Vec::new();
                let ghost mut outs: Seq<Outcome<N>> = seq![];
                let mut cur: Rc<Expression<N>> = rest.clone();
                let ghost whole = eval_outcome(self@, shared(&token));
                assert(whole == match args_outcome(self@, **rest) {
                    Err(err) => Err(err),
                    Ok(outs) => apply_outcome(b, outs),
                });
                loop
                    invariant
                        whole == eval_outcome(self@, *token),
                        whole == match args_outcome(self@, **rest) {
                            Err(err) => Err(err),
                            Ok(outs) => apply_outcome(b, outs),
                        },
                        decreases_to!(*token => *cur),
                        arguments@.len() == outs.len(),
                        forall|i: int| 0 <= i < outs.len() ==> #[trigger] outs[i].admits(*arguments@[i]),
                        args_outcome(self@, **rest) == prepend(outs, args_outcome(self@, *cur)),
                    ensures
                        args_outcome(self@, **rest) == Ok::<Seq<Outcome<N>>, RuntimeError>(outs),
                    decreases *cur,
                {
                    let next: Rc<Expression<N>>;
                    match &*cur {
                        Expression::Nil => {
                            assert(outs + Seq::<Outcome<N>>::empty() =~= outs);
                            break;
                        },
                        Expression::Cons { first, rest } => {
                            let v = self.eval(first.clone())?;
                            proof {
                                lemma_push_outcome(self@, shared(&cur), outs);
                                outs = outs.push(head_outcome(self@, shared(&cur)));
                            }
                            arguments.push(v);
                            next = rest.clone();
                        },
                        _ => {
                            return Err(RuntimeError::ImproperList);
                        },
                    }
                    cur = next;
                }
                proof {
                    let ex = exact(arguments@);
                    if outs.len() == 1 {
                        assert(ex[0] == Outcome::Exactly(*arguments@[0]));
                    }
                    assert forall|i: int| 0 <= i < outs.len() implies rank(#[trigger] outs[i]) == rank(
                        ex[i],
                    ) && int_value(outs[i]) == int_value(ex[i]) by {
                        lemma_admits_profile(outs[i], *arguments@[i]);
                    }
                    lemma_apply_profile(b, outs, ex);
                }
                return apply(b, arguments);
            },
            _ => {},
        }
        Ok(token)
    }
}

} // verus!
