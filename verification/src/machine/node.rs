//! Guard nodes and the guard expression tree.

use std::any::TypeId;

use vstd::prelude::*;
use vstd::string::StringExecFns;

use crate::{str_eq, Domain};

use super::cond::{kleene_and, kleene_not, kleene_or, Cond};

verus! {

/// `std::any::TypeId`, carried through opaquely: the library only compares
/// two of them.
#[verifier::external_type_specification]
#[verifier::external_body]
pub struct ExTypeId(TypeId);

/// Calls `<TypeId as PartialEq>::eq`, which compares the two identifiers; the
/// contract claims the result is the equality of the two values.
#[verifier::external_body]
pub(crate) fn same_type(a: &TypeId, b: &TypeId) -> (r: bool)
    ensures
        r == (*a == *b),
{
    *a == *b
}

/// One transition guard.
///
/// A guard **cannot own state**: `eval` takes `&self` and nodes are held as
/// `&'static`, so every input arrives through [`Cx`]. That rule is what makes
/// the [`Memo`] cache sound and lets a node be tested as a pure function.
pub trait CondNode<D: Domain>: Sync + 'static {
    /// The name of this node.
    spec fn spec_name(&self) -> &'static str;

    /// The name shown in diagrams and logs. It must be **unique within a
    /// machine**, since it is the [`Memo`] key.
    ///
    /// [`crate::render::coverage`] verifies uniqueness.
    fn name(&self) -> (r: &'static str)
        ensures
            r == self.spec_name(),
    ;

    /// The value of this guard for `event` and `world`.
    spec fn spec_eval(&self, event: &D::Event, world: &D::Env) -> Cond;

    /// Evaluates the guard. Must not modify the world.
    fn eval(&self, cx: &Cx<'_, D>) -> (r: Cond)
        ensures
            r == self.spec_eval(cx.event, cx.world),
    ;

    /// The identifier of the implementing type.
    spec fn spec_type(&self) -> TypeId;

    /// Identifies the implementing type (`TypeId::of::<Self>()`), so that two
    /// different node types sharing a name can be told apart.
    fn node_type(&self) -> (r: TypeId)
        ensures
            r == self.spec_type(),
    ;
}

/// The inputs handed to a guard node.
pub struct Cx<'a, D: Domain> {
    /// The event, including payload.
    pub event: &'a D::Event,
    /// The outside world, read-only.
    pub world: &'a D::Env,
}

impl<'a, D: Domain> Cx<'a, D> {
    pub fn new(event: &'a D::Event, world: &'a D::Env) -> (r: Self)
        ensures
            r.event == event,
            r.world == world,
    {
        Cx { event, world }
    }
}

/// The value a memo records for `name`: its first entry with that name.
pub open spec fn memo_lookup(m: Seq<(Seq<char>, Cond)>, name: Seq<char>) -> Option<Cond>
    decreases m.len(),
{
    if m.len() == 0 {
        None
    } else if m[0].0 == name {
        Some(m[0].1)
    } else {
        memo_lookup(m.drop_first(), name)
    }
}

/// `a` is a prefix of `b`: `b` only added entries to `a`.
pub open spec fn memo_extends(a: Seq<(Seq<char>, Cond)>, b: Seq<(Seq<char>, Cond)>) -> bool {
    a.len() <= b.len() && b.take(a.len() as int) == a
}

/// A name recorded in a memo keeps its value however the memo grows.
pub proof fn lemma_memo_lookup_stable(
    a: Seq<(Seq<char>, Cond)>,
    b: Seq<(Seq<char>, Cond)>,
    name: Seq<char>,
)
    requires
        memo_extends(a, b),
        memo_lookup(a, name) is Some,
    ensures
        memo_lookup(b, name) == memo_lookup(a, name),
    decreases a.len(),
{
    assert(b[0] == a[0]);
    if a[0].0 != name {
        assert(b.drop_first().take(a.drop_first().len() as int) =~= a.drop_first());
        lemma_memo_lookup_stable(a.drop_first(), b.drop_first(), name);
    }
}

/// Appending an entry for a name the memo does not hold records exactly that
/// value for it and leaves every other name alone.
pub proof fn lemma_memo_lookup_push(
    m: Seq<(Seq<char>, Cond)>,
    name: Seq<char>,
    c: Cond,
    other: Seq<char>,
)
    requires
        memo_lookup(m, name) is None,
    ensures
        memo_lookup(m.push((name, c)), name) == Some(c),
        other != name ==> memo_lookup(m.push((name, c)), other) == memo_lookup(m, other),
    decreases m.len(),
{
    let p = m.push((name, c));
    if m.len() > 0 {
        assert(p[0] == m[0]);
        assert(p.drop_first() =~= m.drop_first().push((name, c)));
        lemma_memo_lookup_push(m.drop_first(), name, c, other);
        if m[0].0 == other {
            assert(memo_lookup(p, other) == Some(m[0].1));
        } else {
            assert(memo_lookup(p, other) == memo_lookup(p.drop_first(), other));
        }
    } else {
        assert(p[0] == (name, c));
        assert(p.drop_first() =~= Seq::<(Seq<char>, Cond)>::empty());
        if other != name {
            assert(memo_lookup(p, other) == memo_lookup(p.drop_first(), other));
        }
    }
}

/// No name occurs twice in `m`.
pub open spec fn memo_names_unique(m: Seq<(Seq<char>, Cond)>) -> bool {
    forall|i: int, j: int| 0 <= i < j < m.len() ==> (#[trigger] m[i]).0 != (#[trigger] m[j]).0
}

/// A name a memo does not record occurs in none of its entries.
pub proof fn lemma_memo_lookup_none(m: Seq<(Seq<char>, Cond)>, name: Seq<char>)
    requires
        memo_lookup(m, name) is None,
    ensures
        forall|k: int| 0 <= k < m.len() ==> (#[trigger] m[k]).0 != name,
    decreases m.len(),
{
    if m.len() > 0 {
        lemma_memo_lookup_none(m.drop_first(), name);
        assert forall|k: int| 0 <= k < m.len() implies (#[trigger] m[k]).0 != name by {
            if k > 0 {
                assert(m[k] == m.drop_first()[k - 1]);
            }
        }
    }
}

/// The value a memo records for a name is that of one of its entries.
pub proof fn lemma_memo_lookup_some(m: Seq<(Seq<char>, Cond)>, name: Seq<char>)
    requires
        memo_lookup(m, name) is Some,
    ensures
        exists|k: int| 0 <= k < m.len() && #[trigger] m[k] == (name, memo_lookup(m, name).unwrap()),
    decreases m.len(),
{
    if m[0].0 != name {
        lemma_memo_lookup_some(m.drop_first(), name);
        let k = choose|k: int|
            0 <= k < m.drop_first().len() && #[trigger] m.drop_first()[k] == (
                name,
                memo_lookup(m.drop_first(), name).unwrap(),
            );
        assert(m[k + 1] == m.drop_first()[k]);
    } else {
        assert(m[0] == (name, memo_lookup(m, name).unwrap()));
    }
}

/// `parts` joined by `sep`.
pub open spec fn join_parts(parts: Seq<Seq<char>>, sep: Seq<char>) -> Seq<char>
    decreases parts.len(),
{
    if parts.len() == 0 {
        Seq::empty()
    } else if parts.len() == 1 {
        parts[0]
    } else {
        parts[0] + sep + join_parts(parts.drop_first(), sep)
    }
}

/// Guard evaluation cache, valid for the duration of one dispatch.
///
/// When several edges share a `(state, event kind)` the same node is evaluated
/// more than once. Without the cache a single event could observe two
/// different worlds.
pub struct Memo {
    cache: Vec<(&'static str, Cond)>,
}

impl View for Memo {
    type V = Seq<(Seq<char>, Cond)>;

    closed spec fn view(&self) -> Seq<(Seq<char>, Cond)> {
        self.cache@.map_values(|p: (&'static str, Cond)| (p.0@, p.1))
    }
}

impl Memo {
    /// An empty cache.
    pub fn new() -> (r: Self)
        ensures
            r@ == Seq::<(Seq<char>, Cond)>::empty(),
    {
        let r = Memo { cache: Vec::new() };
        proof {
            assert(r@ =~= Seq::<(Seq<char>, Cond)>::empty());
        }
        r
    }

    /// The recorded value for `name`, if any.
    fn lookup(&self, name: &'static str) -> (r: Option<Cond>)
        ensures
            r == memo_lookup(self@, name@),
    {
        let mut i: usize = 0;
        proof {
            assert(self@.skip(0) =~= self@);
        }
        while i < self.cache.len()
            invariant
                i <= self.cache@.len(),
                memo_lookup(self@, name@) == memo_lookup(self@.skip(i as int), name@),
            decreases self.cache@.len() - i,
        {
            let entry = self.cache[i];
            proof {
                assert(self@.skip(i as int)[0] == self@[i as int]);
                assert(self@.skip(i as int).drop_first() =~= self@.skip(i + 1));
            }
            if str_eq(entry.0, name) {
                return Some(entry.1);
            }
            i += 1;
        }
        proof {
            assert(self@.skip(i as int) =~= Seq::<(Seq<char>, Cond)>::empty());
        }
        None
    }

    /// Records `cond` for `name`.
    fn store(&mut self, name: &'static str, cond: Cond)
        ensures
            final(self)@ == old(self)@.push((name@, cond)),
    {
        self.cache.push((name, cond));
        proof {
            assert(self@ =~= old(self)@.push((name@, cond)));
        }
    }
}

/// A guard expression tree.
#[verifier::reject_recursive_types(D)]
pub enum Expr<D: Domain> {
    /// No guard: always true.
    Always,
    /// A guard node. Its name is the [`Memo`] key, so it must be **unique
    /// within a machine**; [`crate::render::coverage`] verifies that.
    Node(&'static dyn CondNode<D>),
    And(&'static Expr<D>, &'static Expr<D>),
    Or(&'static Expr<D>, &'static Expr<D>),
    Not(&'static Expr<D>),
}

impl<D: Domain> Expr<D> {
    /// The Kleene value of the tree when each node has the value that `m`
    /// records for its name.
    pub open spec fn spec_eval(&self, m: Seq<(Seq<char>, Cond)>) -> Cond
        decreases self,
    {
        match self {
            Expr::Always => Cond::True,
            Expr::Node(n) => match memo_lookup(m, n.spec_name()@) {
                Some(c) => c,
                None => Cond::Unknown,
            },
            Expr::And(l, r) => kleene_and(l.spec_eval(m), r.spec_eval(m)),
            Expr::Or(l, r) => kleene_or(l.spec_eval(m), r.spec_eval(m)),
            Expr::Not(x) => kleene_not(x.spec_eval(m)),
        }
    }

    /// The Kleene value of the tree when each node has the value it gives for
    /// `event` and `world`.
    pub open spec fn spec_value(&self, event: &D::Event, world: &D::Env) -> Cond
        decreases self,
    {
        match self {
            Expr::Always => Cond::True,
            Expr::Node(n) => n.spec_eval(event, world),
            Expr::And(l, r) => kleene_and(l.spec_value(event, world), r.spec_value(event, world)),
            Expr::Or(l, r) => kleene_or(l.spec_value(event, world), r.spec_value(event, world)),
            Expr::Not(x) => kleene_not(x.spec_value(event, world)),
        }
    }

    /// `entry` is the name of a node of the tree with the value that node
    /// gives for `event` and `world`.
    pub open spec fn spec_has_entry(
        &self,
        entry: (Seq<char>, Cond),
        event: &D::Event,
        world: &D::Env,
    ) -> bool
        decreases self,
    {
        match self {
            Expr::Always => false,
            Expr::Node(n) => entry == (n.spec_name()@, n.spec_eval(event, world)),
            Expr::And(l, r) => l.spec_has_entry(entry, event, world) || r.spec_has_entry(
                entry,
                event,
                world,
            ),
            Expr::Or(l, r) => l.spec_has_entry(entry, event, world) || r.spec_has_entry(
                entry,
                event,
                world,
            ),
            Expr::Not(x) => x.spec_has_entry(entry, event, world),
        }
    }

    /// `entry` is the name of a node that short-circuit evaluation with node
    /// values `m` reaches, with the value that node gives for `event` and
    /// `world`: the right side of `And` only when the left is not `False`, of
    /// `Or` only when the left is not `True`.
    pub open spec fn spec_reached(
        &self,
        m: Seq<(Seq<char>, Cond)>,
        entry: (Seq<char>, Cond),
        event: &D::Event,
        world: &D::Env,
    ) -> bool
        decreases self,
    {
        match self {
            Expr::Always => false,
            Expr::Node(n) => entry == (n.spec_name()@, n.spec_eval(event, world)),
            Expr::And(l, r) => l.spec_reached(m, entry, event, world) || (l.spec_eval(m)
                != Cond::False && r.spec_reached(m, entry, event, world)),
            Expr::Or(l, r) => l.spec_reached(m, entry, event, world) || (l.spec_eval(m)
                != Cond::True && r.spec_reached(m, entry, event, world)),
            Expr::Not(x) => x.spec_reached(m, entry, event, world),
        }
    }

    /// A node that evaluation reaches is a node of the tree.
    pub proof fn lemma_reached_has_entry(
        &self,
        m: Seq<(Seq<char>, Cond)>,
        entry: (Seq<char>, Cond),
        event: &D::Event,
        world: &D::Env,
    )
        requires
            self.spec_reached(m, entry, event, world),
        ensures
            self.spec_has_entry(entry, event, world),
        decreases self,
    {
        match self {
            Expr::And(l, r) => {
                if l.spec_reached(m, entry, event, world) {
                    l.lemma_reached_has_entry(m, entry, event, world);
                } else {
                    r.lemma_reached_has_entry(m, entry, event, world);
                }
            },
            Expr::Or(l, r) => {
                if l.spec_reached(m, entry, event, world) {
                    l.lemma_reached_has_entry(m, entry, event, world);
                } else {
                    r.lemma_reached_has_entry(m, entry, event, world);
                }
            },
            Expr::Not(x) => {
                x.lemma_reached_has_entry(m, entry, event, world);
            },
            _ => {},
        }
    }

    /// Once the reached nodes are recorded, a memo that grows further does not
    /// change which nodes evaluation reaches.
    pub proof fn lemma_reached_stable(
        &self,
        a: Seq<(Seq<char>, Cond)>,
        b: Seq<(Seq<char>, Cond)>,
        entry: (Seq<char>, Cond),
        event: &D::Event,
        world: &D::Env,
    )
        requires
            memo_extends(a, b),
            self.spec_evaluated(a),
        ensures
            self.spec_reached(b, entry, event, world) == self.spec_reached(a, entry, event, world),
        decreases self,
    {
        match self {
            Expr::And(l, r) => {
                l.lemma_eval_stable(a, b);
                l.lemma_reached_stable(a, b, entry, event, world);
                if l.spec_eval(a) != Cond::False {
                    r.lemma_reached_stable(a, b, entry, event, world);
                }
            },
            Expr::Or(l, r) => {
                l.lemma_eval_stable(a, b);
                l.lemma_reached_stable(a, b, entry, event, world);
                if l.spec_eval(a) != Cond::True {
                    r.lemma_reached_stable(a, b, entry, event, world);
                }
            },
            Expr::Not(x) => {
                x.lemma_reached_stable(a, b, entry, event, world);
            },
            _ => {},
        }
    }

    /// Where every node of the tree has the value it gives for `event` and
    /// `world` whenever its name is recorded in `m`, and the tree is
    /// evaluated under `m`, the tree's value under `m` is its value for
    /// `event` and `world`.
    pub proof fn lemma_eval_is_value(
        &self,
        m: Seq<(Seq<char>, Cond)>,
        event: &D::Event,
        world: &D::Env,
    )
        requires
            self.spec_evaluated(m),
            forall|entry: (Seq<char>, Cond)|
                #[trigger] self.spec_has_entry(entry, event, world) ==> (memo_lookup(m, entry.0)
                    is Some ==> memo_lookup(m, entry.0) == Some(entry.1)),
        ensures
            self.spec_eval(m) == self.spec_value(event, world),
        decreases self,
    {
        match self {
            Expr::Always => {},
            Expr::Node(n) => {
                assert(self.spec_has_entry((n.spec_name()@, n.spec_eval(event, world)), event, world));
            },
            Expr::And(l, r) => {
                assert forall|entry: (Seq<char>, Cond)|
                    #[trigger] l.spec_has_entry(entry, event, world) && memo_lookup(m, entry.0) is Some implies memo_lookup(m, entry.0) == Some(entry.1) by {
                    assert(self.spec_has_entry(entry, event, world));
                }
                l.lemma_eval_is_value(m, event, world);
                if l.spec_eval(m) != Cond::False {
                    assert forall|entry: (Seq<char>, Cond)|
                        #[trigger] r.spec_has_entry(entry, event, world) && memo_lookup(m, entry.0) is Some implies memo_lookup(m, entry.0) == Some(entry.1) by {
                        assert(self.spec_has_entry(entry, event, world));
                    }
                    r.lemma_eval_is_value(m, event, world);
                } else {
                    assert(kleene_and(Cond::False, r.spec_eval(m)) == Cond::False);
                    assert(kleene_and(Cond::False, r.spec_value(event, world)) == Cond::False);
                }
            },
            Expr::Or(l, r) => {
                assert forall|entry: (Seq<char>, Cond)|
                    #[trigger] l.spec_has_entry(entry, event, world) && memo_lookup(m, entry.0) is Some implies memo_lookup(m, entry.0) == Some(entry.1) by {
                    assert(self.spec_has_entry(entry, event, world));
                }
                l.lemma_eval_is_value(m, event, world);
                if l.spec_eval(m) != Cond::True {
                    assert forall|entry: (Seq<char>, Cond)|
                        #[trigger] r.spec_has_entry(entry, event, world) && memo_lookup(m, entry.0) is Some implies memo_lookup(m, entry.0) == Some(entry.1) by {
                        assert(self.spec_has_entry(entry, event, world));
                    }
                    r.lemma_eval_is_value(m, event, world);
                } else {
                    assert(kleene_or(Cond::True, r.spec_eval(m)) == Cond::True);
                    assert(kleene_or(Cond::True, r.spec_value(event, world)) == Cond::True);
                }
            },
            Expr::Not(x) => {
                assert forall|entry: (Seq<char>, Cond)|
                    #[trigger] x.spec_has_entry(entry, event, world) && memo_lookup(m, entry.0) is Some implies memo_lookup(m, entry.0) == Some(entry.1) by {
                    assert(self.spec_has_entry(entry, event, world));
                }
                x.lemma_eval_is_value(m, event, world);
            },
        }
    }

    /// Every node that short-circuit evaluation reaches has a value in `m`.
    pub open spec fn spec_evaluated(&self, m: Seq<(Seq<char>, Cond)>) -> bool
        decreases self,
    {
        match self {
            Expr::Always => true,
            Expr::Node(n) => memo_lookup(m, n.spec_name()@) is Some,
            Expr::And(l, r) => l.spec_evaluated(m) && (l.spec_eval(m) != Cond::False
                ==> r.spec_evaluated(m)),
            Expr::Or(l, r) => l.spec_evaluated(m) && (l.spec_eval(m) != Cond::True
                ==> r.spec_evaluated(m)),
            Expr::Not(x) => x.spec_evaluated(m),
        }
    }

    /// The name and type of each node in the tree, left to right.
    pub open spec fn spec_node_ids(&self) -> Seq<(Seq<char>, TypeId)>
        decreases self,
    {
        match self {
            Expr::Always => Seq::empty(),
            Expr::Node(n) => seq![(n.spec_name()@, n.spec_type())],
            Expr::And(l, r) => l.spec_node_ids() + r.spec_node_ids(),
            Expr::Or(l, r) => l.spec_node_ids() + r.spec_node_ids(),
            Expr::Not(x) => x.spec_node_ids(),
        }
    }

    /// The diagram text of the tree.
    pub open spec fn spec_render(&self) -> Seq<char>
        decreases self,
    {
        match self {
            Expr::Always => Seq::empty(),
            Expr::Node(n) => n.spec_name()@,
            Expr::And(l, r) => l.spec_render() + " && "@ + r.spec_render(),
            Expr::Or(l, r) => "("@ + l.spec_render() + " || "@ + r.spec_render() + ")"@,
            Expr::Not(x) => match x {
                Expr::Node(n) => "!"@ + n.spec_name()@,
                _ => "!("@ + x.spec_render() + ")"@,
            },
        }
    }

    /// A node, or a node under a single `Not`.
    pub open spec fn is_literal(&self) -> bool {
        match self {
            Expr::Node(_) => true,
            Expr::Not(x) => *x is Node,
            _ => false,
        }
    }

    /// A chain `l1 && l2 && ... && ln` of literals, nested to the right.
    pub open spec fn is_literal_chain(&self) -> bool
        decreases self,
    {
        match self {
            Expr::And(l, r) => l.is_literal() && r.is_literal_chain(),
            _ => self.is_literal(),
        }
    }

    /// The rendered literals of a chain, left to right.
    pub open spec fn chain_parts(&self) -> Seq<Seq<char>>
        decreases self,
    {
        match self {
            Expr::And(l, r) => seq![l.spec_render()] + r.chain_parts(),
            _ => seq![self.spec_render()],
        }
    }

    /// A chain of literals renders as the renderings of its literals (a name,
    /// or `!` and a name) joined by `" && "`, with no parentheses:
    /// `!A && B && !C`.
    pub proof fn lemma_literal_chain_render(&self)
        requires
            self.is_literal_chain(),
        ensures
            self.spec_render() == join_parts(self.chain_parts(), " && "@),
        decreases self,
    {
        if let Expr::And(l, r) = self {
            r.lemma_literal_chain_render();
            let rest = r.chain_parts();
            let parts = self.chain_parts();
            r.lemma_chain_parts_nonempty();
            assert(parts.drop_first() =~= rest);
        }
    }

    /// A chain has at least one literal.
    proof fn lemma_chain_parts_nonempty(&self)
        ensures
            self.chain_parts().len() > 0,
    {
    }

    /// Once the reached nodes are recorded, a memo that grows further does not
    /// change what the tree evaluates to.
    pub proof fn lemma_eval_stable(&self, a: Seq<(Seq<char>, Cond)>, b: Seq<(Seq<char>, Cond)>)
        requires
            memo_extends(a, b),
            self.spec_evaluated(a),
        ensures
            self.spec_evaluated(b),
            self.spec_eval(b) == self.spec_eval(a),
        decreases self,
    {
        match self {
            Expr::Always => {},
            Expr::Node(n) => {
                lemma_memo_lookup_stable(a, b, n.spec_name()@);
            },
            Expr::And(l, r) => {
                l.lemma_eval_stable(a, b);
                if l.spec_eval(a) != Cond::False {
                    r.lemma_eval_stable(a, b);
                }
            },
            Expr::Or(l, r) => {
                l.lemma_eval_stable(a, b);
                if l.spec_eval(a) != Cond::True {
                    r.lemma_eval_stable(a, b);
                }
            },
            Expr::Not(x) => {
                x.lemma_eval_stable(a, b);
            },
        }
    }

    /// Evaluates the tree. `And` and `Or` **short-circuit**, so no unnecessary
    /// lookups are performed; each node is evaluated at most once per memo.
    pub fn eval(&self, cx: &Cx<'_, D>, memo: &mut Memo) -> (r: Cond)
        ensures
            memo_extends(old(memo)@, final(memo)@),
            self.spec_evaluated(final(memo)@),
            r == self.spec_eval(final(memo)@),
            forall|k: int|
                old(memo)@.len() <= k < final(memo)@.len() ==> self.spec_reached(
                    final(memo)@,
                    #[trigger] final(memo)@[k],
                    cx.event,
                    cx.world,
                ),
            memo_names_unique(old(memo)@) ==> memo_names_unique(final(memo)@),
            self matches Expr::Node(n) ==> (memo_lookup(old(memo)@, n.spec_name()@) is None ==> r
                == n.spec_eval(cx.event, cx.world)),
        decreases self,
    {
        match self {
            Expr::Always => {
                proof {
                    assert(memo@.take(memo@.len() as int) =~= memo@);
                }
                Cond::True
            },
            Expr::Node(n) => {
                let name = n.name();
                if let Some(cached) = memo.lookup(name) {
                    proof {
                        assert(memo@.take(memo@.len() as int) =~= memo@);
                    }
                    return cached;
                }
                let cond = n.eval(cx);
                let ghost before = memo@;
                memo.store(name, cond);
                proof {
                    lemma_memo_lookup_push(before, name@, cond, name@);
                    lemma_memo_lookup_none(before, name@);
                    assert(memo@.take(before.len() as int) =~= before);
                    assert(memo@[before.len() as int] == (name@, cond));
                    if memo_names_unique(before) {
                        assert forall|i: int, j: int|
                            0 <= i < j < memo@.len() implies (#[trigger] memo@[i]).0 != (
                            #[trigger] memo@[j]).0 by {
                            assert(memo@[i] == before[i]);
                            if j < before.len() {
                                assert(memo@[j] == before[j]);
                            }
                        }
                    }
                }
                cond
            },
            Expr::And(l, r) => {
                let ghost m0 = memo@;
                let left = l.eval(cx, memo);
                let ghost m1 = memo@;
                match left {
                    Cond::False => {
                        Cond::False
                    },
                    _ => {
                        let right = r.eval(cx, memo);
                        proof {
                            l.lemma_eval_stable(m1, memo@);
                            assert(memo@.take(m0.len() as int) =~= m1.take(m0.len() as int));
                            assert forall|k: int|
                                m0.len() <= k < memo@.len() implies self.spec_reached(
                                memo@,
                                #[trigger] memo@[k],
                                cx.event,
                                cx.world,
                            ) by {
                                if k < m1.len() {
                                    assert(memo@[k] == m1[k]);
                                    l.lemma_reached_stable(m1, memo@, m1[k], cx.event, cx.world);
                                }
                            }
                        }
                        left.and(right)
                    },
                }
            },
            Expr::Or(l, r) => {
                let ghost m0 = memo@;
                let left = l.eval(cx, memo);
                let ghost m1 = memo@;
                match left {
                    Cond::True => {
                        Cond::True
                    },
                    _ => {
                        let right = r.eval(cx, memo);
                        proof {
                            l.lemma_eval_stable(m1, memo@);
                            assert(memo@.take(m0.len() as int) =~= m1.take(m0.len() as int));
                            assert forall|k: int|
                                m0.len() <= k < memo@.len() implies self.spec_reached(
                                memo@,
                                #[trigger] memo@[k],
                                cx.event,
                                cx.world,
                            ) by {
                                if k < m1.len() {
                                    assert(memo@[k] == m1[k]);
                                    l.lemma_reached_stable(m1, memo@, m1[k], cx.event, cx.world);
                                }
                            }
                        }
                        left.or(right)
                    },
                }
            },
            Expr::Not(x) => x.eval(cx, memo).not(),
        }
    }

    /// Renders the expression for diagrams, e.g. `A && !B`.
    ///
    /// `Not` is parenthesised so that `!(A && B)` does not read as `!A && B`.
    pub fn render(&self) -> (r: String)
        ensures
            r@ == self.spec_render(),
        decreases self,
    {
        match self {
            Expr::Always => String::new(),
            Expr::Node(n) => n.name().to_owned(),
            Expr::And(l, r) => {
                let mut s = l.render();
                s.append(" && ");
                let rs = r.render();
                s.append(rs.as_str());
                s
            },
            Expr::Or(l, r) => {
                let mut s = String::from_str("(");
                let ls = l.render();
                s.append(ls.as_str());
                s.append(" || ");
                let rs = r.render();
                s.append(rs.as_str());
                s.append(")");
                s
            },
            Expr::Not(x) => match x {
                Expr::Node(n) => {
                    let mut s = String::from_str("!");
                    s.append(n.name());
                    s
                },
                _ => {
                    let mut s = String::from_str("!(");
                    let xs = x.render();
                    s.append(xs.as_str());
                    s.append(")");
                    s
                },
            },
        }
    }

    /// Collects `(name, type)` for every node this expression references, for
    /// the name-uniqueness check.
    pub fn node_ids(&self, out: &mut Vec<(&'static str, TypeId)>)
        ensures
            final(out)@.len() == old(out)@.len() + self.spec_node_ids().len(),
            final(out)@.take(old(out)@.len() as int) == old(out)@,
            forall|i: int|
                0 <= i < self.spec_node_ids().len() ==> ((#[trigger] final(out)@[old(out)@.len()
                    + i]).0@, final(out)@[old(out)@.len() + i].1) == self.spec_node_ids()[i],
        decreases self,
    {
        let ghost start = out@;
        match self {
            Expr::Always => {
                proof {
                    assert(out@.take(start.len() as int) =~= start);
                }
            },
            Expr::Node(n) => {
                out.push((n.name(), n.node_type()));
                proof {
                    assert(out@.take(start.len() as int) =~= start);
                }
            },
            Expr::And(l, r) | Expr::Or(l, r) => {
                l.node_ids(out);
                let ghost mid = out@;
                r.node_ids(out);
                proof {
                    assert(out@.take(start.len() as int) =~= mid.take(start.len() as int));
                    assert forall|i: int| 0 <= i < self.spec_node_ids().len() implies ((
                    #[trigger] out@[start.len() + i]).0@, out@[start.len() + i].1)
                        == self.spec_node_ids()[i] by {
                        if i < l.spec_node_ids().len() {
                            assert(out@[start.len() + i] == mid[start.len() + i]);
                        } else {
                            let k = i - l.spec_node_ids().len();
                            assert(out@[mid.len() + k] == out@[start.len() + i]);
                        }
                    }
                }
            },
            Expr::Not(x) => {
                x.node_ids(out);
            },
        }
    }
}

} // verus!
