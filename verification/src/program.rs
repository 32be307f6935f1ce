//! Programs: clauses over named relations, with names turned into dense
//! integers as they are first used.

use vstd::prelude::*;

verus! {

/// An argument of a predicate as it is written.
pub enum Arg {
    /// A literal value.
    Lit(i64),
    /// A variable, by its name. The name counts within one clause.
    Var(String),
}

/// An [`Arg`] as plain values.
pub enum ArgView {
    Lit(i64),
    Var(Seq<char>),
}

impl View for Arg {
    type V = ArgView;

    open spec fn view(&self) -> ArgView {
        match self {
            Arg::Lit(v) => ArgView::Lit(*v),
            Arg::Var(name) => ArgView::Var(name@),
        }
    }
}

/// The arguments `args` as plain values.
pub open spec fn args_view(args: Seq<Arg>) -> Seq<ArgView> {
    args.map_values(|a: Arg| a@)
}

/// A predicate as it is written: the name of its relation, and its
/// arguments.
pub type Written = (String, Vec<Arg>);

/// A written predicate as plain values.
pub type WrittenView = (Seq<char>, Seq<ArgView>);

/// The written predicate `p` as plain values.
pub open spec fn written_view(p: Written) -> WrittenView {
    (p.0@, args_view(p.1@))
}

/// The written predicates `body` as plain values.
pub open spec fn body_view(body: Seq<Written>) -> Seq<WrittenView> {
    body.map_values(|p: Written| written_view(p))
}

/// An argument of a predicate: a literal value, or a variable by the
/// integer that stands for its name within the clause.
#[derive(Clone, Copy, Debug)]
pub enum Atom {
    Lit(i64),
    Var(usize),
}

/// The names `names` with `name` among them, and the integer that stands
/// for `name`: its place among them. A name that is new goes to the end.
pub open spec fn intern(names: Seq<Seq<char>>, name: Seq<char>) -> (Seq<Seq<char>>, usize) {
    if names.contains(name) {
        (names, names.index_of(name) as usize)
    } else {
        (names.push(name), names.len() as usize)
    }
}

/// Names and the integers that stand for them: each name stands at the
/// place that is its integer.
pub struct Interner {
    names: Vec<String>,
}

impl View for Interner {
    type V = Seq<Seq<char>>;

    closed spec fn view(&self) -> Seq<Seq<char>> {
        self.names@.map_values(|s: String| s@)
    }
}

impl Interner {
    /// No name stands twice.
    pub open spec fn wf(&self) -> bool {
        self@.no_duplicates()
    }

    /// No names.
    pub fn new() -> (r: Self)
        ensures
            r.wf(),
            r@ == Seq::<Seq<char>>::empty(),
    {
        let r = Interner { names: Vec::new() };
        proof {
            assert(r@ =~= Seq::<Seq<char>>::empty());
        }
        r
    }

    /// How many names there are.
    pub fn len(&self) -> (n: usize)
        ensures
            n == self@.len(),
    {
        self.names.len()
    }

    /// The integer that stands for `name`, if `name` is known.
    pub fn lookup(&self, name: &String) -> (r: Option<usize>)
        requires
            self.wf(),
        ensures
            match r {
                Some(id) => self@.contains(name@) && id == self@.index_of(name@),
                None => !self@.contains(name@),
            },
    {
        let mut i: usize = 0;
        while i < self.names.len()
            invariant
                self.wf(),
                i <= self.names.len(),
                forall|j: int| 0 <= j < i ==> self@[j] != name@,
            decreases self.names.len() - i,
        {
            if self.names[i] == *name {
                proof {
                    assert(self@[i as int] == name@);
                    assert(self@.contains(name@));
                    let k = self@.index_of(name@);
                    assert(0 <= k < self@.len() && self@[k] == name@);
                    assert(k == i);
                }
                return Some(i);
            }
            i += 1;
        }
        None
    }

    /// The integer that stands for `name`, which is made known if it is
    /// not.
    pub fn intern(&mut self, name: String) -> (id: usize)
        requires
            old(self).wf(),
        ensures
            final(self).wf(),
            (final(self)@, id) == intern(old(self)@, name@),
    {
        match self.lookup(&name) {
            Some(id) => id,
            None => {
                let id = self.names.len();
                self.names.push(name);
                proof {
                    assert(self@ =~= old(self)@.push(name@));
                }
                id
            },
        }
    }
}

/// A predicate: the integer that stands for the name of its relation, and
/// its arguments.
pub struct Predicate {
    pub name: usize,
    pub args: Vec<Atom>,
}

/// A [`Predicate`] as plain values.
pub struct PredicateView {
    pub name: usize,
    pub args: Seq<Atom>,
}

impl View for Predicate {
    type V = PredicateView;

    open spec fn view(&self) -> PredicateView {
        PredicateView { name: self.name, args: self.args@ }
    }
}

impl PredicateView {
    /// The places that hold a literal, each with its literal.
    pub open spec fn constants(self) -> Set<(int, i64)> {
        Set::new(|c: (int, i64)| 0 <= c.0 < self.args.len() && self.args[c.0] == Atom::Lit(c.1))
    }

    /// The places that hold a variable, each with its variable.
    pub open spec fn variables(self) -> Set<(int, usize)> {
        Set::new(|c: (int, usize)| 0 <= c.0 < self.args.len() && self.args[c.0] == Atom::Var(c.1))
    }

    /// Every place of a predicate holds one literal or one variable, and
    /// never both.
    pub proof fn lemma_places(self, place: int)
        requires
            0 <= place < self.args.len(),
        ensures
            match self.args[place] {
                Atom::Lit(v) => {
                    &&& forall|w: i64| self.constants().contains((place, w)) <==> w == v
                    &&& forall|x: usize| !self.variables().contains((place, x))
                },
                Atom::Var(x) => {
                    &&& forall|y: usize| self.variables().contains((place, y)) <==> y == x
                    &&& forall|w: i64| !self.constants().contains((place, w))
                },
            },
    {
    }
}

/// The predicates `ps` as plain values.
pub open spec fn predicates_view(ps: Seq<Predicate>) -> Seq<PredicateView> {
    ps.map_values(|p: Predicate| p@)
}

/// A clause: its head holds for the values of the variables for which all
/// the predicates of its body hold.
pub struct Clause {
    pub head: Predicate,
    pub body: Vec<Predicate>,
}

/// A [`Clause`] as plain values.
pub struct ClauseView {
    pub head: PredicateView,
    pub body: Seq<PredicateView>,
}

impl View for Clause {
    type V = ClauseView;

    open spec fn view(&self) -> ClauseView {
        ClauseView { head: self.head@, body: predicates_view(self.body@) }
    }
}

/// Arguments read so far: the variable names met, and the arguments with
/// each variable as the integer that stands for it.
pub struct Atoms {
    pub vars: Seq<Seq<char>>,
    pub atoms: Seq<Atom>,
}

/// The written arguments `args`, read from the first to the last after the
/// variable names `vars` were met.
pub open spec fn read_args(vars: Seq<Seq<char>>, args: Seq<ArgView>) -> Atoms
    decreases args.len(),
{
    if args.len() == 0 {
        Atoms { vars, atoms: Seq::empty() }
    } else {
        let before = read_args(vars, args.drop_last());
        match args.last() {
            ArgView::Lit(v) => Atoms { vars: before.vars, atoms: before.atoms.push(Atom::Lit(v)) },
            ArgView::Var(name) => Atoms {
                vars: intern(before.vars, name).0,
                atoms: before.atoms.push(Atom::Var(intern(before.vars, name).1)),
            },
        }
    }
}

/// Predicates read so far: the relation names and the variable names met,
/// and the predicates.
pub struct Reading {
    pub names: Seq<Seq<char>>,
    pub vars: Seq<Seq<char>>,
    pub read: Seq<PredicateView>,
}

/// The written predicates `ps`, read from the first to the last after the
/// relation names `names` and the variable names `vars` were met.
pub open spec fn read_predicates(
    names: Seq<Seq<char>>,
    vars: Seq<Seq<char>>,
    ps: Seq<WrittenView>,
) -> Reading
    decreases ps.len(),
{
    if ps.len() == 0 {
        Reading { names, vars, read: Seq::empty() }
    } else {
        let before = read_predicates(names, vars, ps.drop_last());
        let args = read_args(before.vars, ps.last().1);
        Reading {
            names: intern(before.names, ps.last().0).0,
            vars: args.vars,
            read: before.read.push(
                PredicateView { name: intern(before.names, ps.last().0).1, args: args.atoms },
            ),
        }
    }
}

/// A program as plain values: the names of its relations, each at the place
/// that is its integer, and its clauses in the order in which they were
/// added.
pub struct ProgramView {
    pub names: Seq<Seq<char>>,
    pub clauses: Seq<ClauseView>,
}

impl ProgramView {
    /// No relation name stands twice, and every predicate names a relation.
    pub open spec fn wf(self) -> bool {
        &&& self.names.no_duplicates()
        &&& forall|i: int|
            0 <= i < self.clauses.len() ==> (#[trigger] self.clauses[i]).head.name
                < self.names.len()
        &&& forall|i: int, j: int|
            0 <= i < self.clauses.len() && 0 <= j < self.clauses[i].body.len() ==> (
            #[trigger] self.clauses[i].body[j]).name < self.names.len()
    }

    /// The program with one clause more. Its names are read head first,
    /// then the body from its first predicate to its last: a relation name
    /// that is new gets the next integer of the program, a variable name
    /// that is new the next integer of the clause.
    pub open spec fn with_clause(self, head: WrittenView, body: Seq<WrittenView>) -> ProgramView {
        let h = read_predicates(self.names, Seq::empty(), seq![head]);
        let b = read_predicates(h.names, h.vars, body);
        ProgramView {
            names: b.names,
            clauses: self.clauses.push(ClauseView { head: h.read[0], body: b.read }),
        }
    }

    /// Whether the relation `r` has a clause.
    pub open spec fn declared(self, r: usize) -> bool {
        exists|i: int| 0 <= i < self.clauses.len() && (#[trigger] self.clauses[i]).head.name == r
    }

    /// The relation `r`: the clauses with `r` in their heads, in the order
    /// in which they were added.
    pub open spec fn relation(self, r: usize) -> Seq<ClauseView> {
        self.clauses.filter(|c: ClauseView| c.head.name == r)
    }

    /// A relation has a clause where it is not empty.
    pub proof fn lemma_declared(self, r: usize)
        ensures
            self.declared(r) <==> self.relation(r).len() > 0,
    {
        let of_r = |c: ClauseView| c.head.name == r;
        if self.declared(r) {
            let i = choose|i: int|
                0 <= i < self.clauses.len() && (#[trigger] self.clauses[i]).head.name == r;
            self.clauses.lemma_filter_contains(of_r, i);
        }
        if self.relation(r).len() > 0 {
            let c = self.relation(r)[0];
            self.clauses.lemma_filter_pred(of_r, 0);
            assert(self.relation(r).contains(c));
            self.clauses.lemma_filter_contains_rev(of_r, c);
            let i = choose|i: int| 0 <= i < self.clauses.len() && self.clauses[i] == c;
            assert(self.clauses[i].head.name == r);
        }
    }
}

/// A program: clauses, each with the relation of its head.
pub struct Program {
    names: Interner,
    clauses: Vec<Clause>,
}

impl View for Program {
    type V = ProgramView;

    closed spec fn view(&self) -> ProgramView {
        ProgramView { names: self.names@, clauses: self.clauses@.map_values(|c: Clause| c@) }
    }
}

/// Reads the written arguments `args`, making new variable names known to
/// `vars`.
fn read_written_args(vars: &mut Interner, args: &Vec<Arg>) -> (atoms: Vec<Atom>)
    requires
        old(vars).wf(),
    ensures
        final(vars).wf(),
        final(vars)@ == read_args(old(vars)@, args_view(args@)).vars,
        atoms@ == read_args(old(vars)@, args_view(args@)).atoms,
{
    let mut atoms: Vec<Atom> = Vec::new();
    let mut i: usize = 0;
    let ghost all = args_view(args@);
    while i < args.len()
        invariant
            i <= args.len(),
            all == args_view(args@),
            vars.wf(),
            vars@ == read_args(old(vars)@, all.take(i as int)).vars,
            atoms@ == read_args(old(vars)@, all.take(i as int)).atoms,
        decreases args.len() - i,
    {
        proof {
            assert(all.take(i + 1).drop_last() =~= all.take(i as int));
            assert(all.take(i + 1).last() == args@[i as int]@);
        }
        match &args[i] {
            Arg::Lit(v) => {
                atoms.push(Atom::Lit(*v));
            },
            Arg::Var(name) => {
                let id = vars.intern(name.clone());
                atoms.push(Atom::Var(id));
            },
        }
        i += 1;
    }
    proof {
        assert(all.take(i as int) =~= all);
    }
    atoms
}

/// Reads the written predicates `ps`, making new names known to `names`
/// and `vars`.
fn read_written(names: &mut Interner, vars: &mut Interner, ps: &Vec<Written>) -> (read: Vec<
    Predicate,
>)
    requires
        old(names).wf(),
        old(vars).wf(),
    ensures
        final(names).wf(),
        final(vars).wf(),
        final(names)@ == read_predicates(old(names)@, old(vars)@, body_view(ps@)).names,
        final(vars)@ == read_predicates(old(names)@, old(vars)@, body_view(ps@)).vars,
        predicates_view(read@) == read_predicates(old(names)@, old(vars)@, body_view(ps@)).read,
{
    let mut read: Vec<Predicate> = Vec::new();
    let mut i: usize = 0;
    let ghost all = body_view(ps@);
    while i < ps.len()
        invariant
            i <= ps.len(),
            all == body_view(ps@),
            names.wf(),
            vars.wf(),
            names@ == read_predicates(old(names)@, old(vars)@, all.take(i as int)).names,
            vars@ == read_predicates(old(names)@, old(vars)@, all.take(i as int)).vars,
            predicates_view(read@) == read_predicates(
                old(names)@,
                old(vars)@,
                all.take(i as int),
            ).read,
        decreases ps.len() - i,
    {
        proof {
            assert(all.take(i + 1).drop_last() =~= all.take(i as int));
            assert(all.take(i + 1).last() == written_view(ps@[i as int]));
        }
        let name = names.intern(ps[i].0.clone());
        let args = read_written_args(vars, &ps[i].1);
        let ghost before = read@;
        let p = Predicate { name, args };
        read.push(p);
        proof {
            assert(predicates_view(read@) =~= predicates_view(before).push(p@));
        }
        i += 1;
    }
    proof {
        assert(all.take(i as int) =~= all);
    }
    read
}

/// Reading predicates forgets no relation name, and every predicate read
/// names a relation that is known afterwards.
pub proof fn lemma_read_predicates_names(
    names: Seq<Seq<char>>,
    vars: Seq<Seq<char>>,
    ps: Seq<WrittenView>,
)
    ensures
        read_predicates(names, vars, ps).read.len() == ps.len(),
        names.len() <= read_predicates(names, vars, ps).names.len(),
        forall|j: int|
            0 <= j < ps.len() ==> (#[trigger] read_predicates(names, vars, ps).read[j]).name
                < read_predicates(names, vars, ps).names.len(),
    decreases ps.len(),
{
    if ps.len() > 0 {
        lemma_read_predicates_names(names, vars, ps.drop_last());
        let before = read_predicates(names, vars, ps.drop_last());
        let name = ps.last().0;
        if before.names.contains(name) {
            let k = before.names.index_of(name);
            assert(0 <= k < before.names.len() && before.names[k] == name);
        }
    }
}

impl Program {
    /// No relation name stands twice, and every predicate names a relation.
    pub closed spec fn wf(&self) -> bool {
        &&& self.names.wf()
        &&& self@.wf()
    }

    /// What [`Program::wf`] says of the program as plain values.
    pub proof fn lemma_wf(&self)
        requires
            self.wf(),
        ensures
            self@.wf(),
    {
    }

    /// The names of the relations, each at the place that is its integer.
    pub fn names(&self) -> (names: &Interner)
        ensures
            names@ == self@.names,
    {
        &self.names
    }

    /// The clauses, in the order in which they were added.
    pub fn clauses(&self) -> (clauses: &Vec<Clause>)
        ensures
            clauses@.map_values(|c: Clause| c@) == self@.clauses,
    {
        &self.clauses
    }

    /// A program without clauses.
    pub fn new() -> (p: Self)
        ensures
            p.wf(),
            p@.names == Seq::<Seq<char>>::empty(),
            p@.clauses == Seq::<ClauseView>::empty(),
    {
        let p = Program { names: Interner::new(), clauses: Vec::new() };
        proof {
            assert(p@.clauses =~= Seq::<ClauseView>::empty());
        }
        p
    }

    /// Adds the clause with the head `head` and the body `body`. Clauses
    /// with the same relation in their heads make up that relation
    /// together.
    pub fn clause(&mut self, head: Written, body: Vec<Written>)
        requires
            old(self).wf(),
        ensures
            final(self).wf(),
            final(self)@ == old(self)@.with_clause(written_view(head), body_view(body@)),
    {
        let ghost start = self@;
        let ghost head_view = written_view(head);
        let mut vars = Interner::new();
        let mut heads: Vec<Written> = Vec::new();
        heads.push(head);
        proof {
            assert(body_view(heads@) =~= seq![head_view]);
            lemma_read_predicates_names(start.names, Seq::empty(), seq![head_view]);
        }
        let mut read_heads = read_written(&mut self.names, &mut vars, &heads);
        let ghost h = read_predicates(start.names, Seq::empty(), seq![head_view]);
        proof {
            assert(predicates_view(read_heads@).len() == 1);
            lemma_read_predicates_names(h.names, h.vars, body_view(body@));
        }
        let read_body = read_written(&mut self.names, &mut vars, &body);
        let ghost b = read_predicates(h.names, h.vars, body_view(body@));
        match read_heads.pop() {
            Some(head) => {
                proof {
                    assert(head@ == predicates_view(seq![head])[0]);
                    assert(head@ == h.read[0]);
                }
                let c = Clause { head, body: read_body };
                self.clauses.push(c);
                proof {
                    assert(self@.clauses =~= start.clauses.push(c@));
                    assert forall|i: int, j: int|
                        0 <= i < self@.clauses.len() && 0 <= j
                            < self@.clauses[i].body.len() implies (
                    #[trigger] self@.clauses[i].body[j]).name < self@.names.len() by {
                        if i < start.clauses.len() {
                            assert(self@.clauses[i] == start.clauses[i]);
                        }
                    }
                }
            },
            None => {},
        }
    }
}

} // verus!
