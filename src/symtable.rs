use vstd::prelude::*;

verus! {

/// An interned name. Two symbols are equal exactly when they were interned
/// from the same name by the same table.
#[derive(Clone, Copy, Debug, PartialEq, Eq, Structural)]
pub struct Symbol {
    table: u64,
    index: usize,
}

impl Symbol {
    /// The tag of the table that interned this symbol.
    pub closed spec fn owner(self) -> u64 {
        self.table
    }

    /// The position of this symbol's name in its table.
    pub closed spec fn slot(self) -> nat {
        self.index as nat
    }
}

/// A registry of interned names. It only ever grows.
pub struct SymTable {
    tag: u64,
    names: Vec<String>,
}

/// Relies on std's `RandomState::new`: a hasher builder seeded with fresh
/// random keys. Nothing is promised of them.
#[verifier::external_body]
fn random_state() -> (r: std::collections::hash_map::RandomState) {
    std::collections::hash_map::RandomState::new()
}

/// Relies on std's `BuildHasher::hash_one`: a digest of one byte under the
/// builder's keys, so random with them. Nothing is promised of the value.
#[verifier::external_body]
fn digest_of_zero(s: &std::collections::hash_map::RandomState) -> (r: u64) {
    std::hash::BuildHasher::hash_one(s, 0u8)
}

/// A tag for a new table: tables made in one run carry distinct tags with
/// overwhelming likelihood.
fn fresh_tag() -> u64 {
    let s = random_state();
    digest_of_zero(&s)
}

impl SymTable {
    /// The tag that identifies this table instance.
    pub closed spec fn tag(&self) -> u64 {
        self.tag
    }

    /// The names interned so far, in order of first request.
    pub closed spec fn names(&self) -> Seq<Seq<char>> {
        self.names@.map_values(|s: String| s@)
    }

    /// No name is registered twice.
    pub open spec fn wf(&self) -> bool {
        forall|i: int, j: int|
            0 <= i < j < self.names().len() ==> self.names()[i] != self.names()[j]
    }

    /// `r` is the symbol of `name` in `after`, and `after` is `before` with
    /// `name` registered if it was not yet.
    pub open spec fn interning(before: SymTable, name: Seq<char>, after: SymTable, r: Symbol) -> bool {
        &&& after.tag() == before.tag()
        &&& before.names().contains(name) ==> after.names() == before.names()
        &&& !before.names().contains(name) ==> after.names() == before.names().push(name)
        &&& r.owner() == after.tag()
        &&& r.slot() < after.names().len()
        &&& after.names()[r.slot() as int] == name
    }

    /// An empty table with a random tag. Tables made this way carry
    /// distinct tags, and so never share symbols, only with overwhelming
    /// likelihood (two random 64-bit tags collide with chance 2^-64). Where
    /// distinctness must be certain, give each table its own tag with
    /// `with_tag`.
    pub fn new() -> (r: SymTable)
        ensures
            r.wf(),
            r.names() == Seq::<Seq<char>>::empty(),
    {
        SymTable::with_tag(fresh_tag())
    }

    /// An empty table identified by `tag`.
    pub fn with_tag(tag: u64) -> (r: SymTable)
        ensures
            r.wf(),
            r.tag() == tag,
            r.names() == Seq::<Seq<char>>::empty(),
    {
        let r = SymTable { tag, names: Vec::new() };
        assert(r.names() =~= Seq::<Seq<char>>::empty());
        r
    }

    /// Index of `name` among the registered names, if it is there.
    fn position(&self, name: &String) -> (r: Option<usize>)
        ensures
            match r {
                Some(i) => i < self.names().len() && self.names()[i as int] == name@,
                None => !self.names().contains(name@),
            },
    {
        let mut i: usize = 0;
        while i < self.names.len()
            invariant
                i <= self.names@.len(),
                forall|j: int| 0 <= j < i ==> self.names()[j] != name@,
            decreases self.names@.len() - i,
        {
            if self.names[i] == *name {
                return Some(i);
            }
            i = i + 1;
        }
        proof {
            if self.names().contains(name@) {
                let k = choose|k: int| 0 <= k < self.names().len() && self.names()[k] == name@;
                assert(self.names()[k] == name@);
            }
        }
        None
    }

    /// Registers `name` if it is new. Returns its symbol when it was new, and
    /// `None` when the table already held it (the table is then unchanged).
    pub fn insert(&mut self, name: &str) -> (r: Option<Symbol>)
        requires
            old(self).wf(),
        ensures
            final(self).wf(),
            final(self).tag() == old(self).tag(),
            old(self).names().contains(name@) ==> final(self).names() == old(self).names() && r is None,
            !old(self).names().contains(name@) ==> {
                &&& final(self).names() == old(self).names().push(name@)
                &&& r is Some
                &&& r->0.owner() == old(self).tag()
                &&& r->0.slot() == old(self).names().len()
            },
    {
        let owned = name.to_owned();
        match self.position(&owned) {
            Some(_) => None,
            None => {
                let index = self.names.len();
                self.names.push(owned);
                assert(self.names() =~= old(self).names().push(name@));
                Some(Symbol { table: self.tag, index })
            },
        }
    }

    /// The symbol interned for `name`, registering the name if it is new.
    pub fn sym_for(&mut self, name: &str) -> (r: Symbol)
        requires
            old(self).wf(),
        ensures
            final(self).wf(),
            SymTable::interning(*old(self), name@, *final(self), r),
    {
        let owned = name.to_owned();
        match self.position(&owned) {
            Some(index) => Symbol { table: self.tag, index },
            None => {
                let index = self.names.len();
                self.names.push(owned);
                assert(self.names() =~= old(self).names().push(name@));
                Symbol { table: self.tag, index }
            },
        }
    }
}

/// Symbols are equal exactly when they come from the same table and slot.
pub proof fn lemma_symbol_identity(a: Symbol, b: Symbol)
    ensures
        (a == b) <==> (a.owner() == b.owner() && a.slot() == b.slot()),
{
}

/// Interning is idempotent: asking one table twice for the same name gives
/// equal symbols, and the second request leaves the table as it was.
pub proof fn lemma_interning_idempotent(
    t0: SymTable,
    t1: SymTable,
    t2: SymTable,
    name: Seq<char>,
    a: Symbol,
    b: Symbol,
)
    requires
        t0.wf(),
        SymTable::interning(t0, name, t1, a),
        SymTable::interning(t1, name, t2, b),
    ensures
        a == b,
        t2.names() == t1.names(),
{
    assert(t1.names().contains(name)) by {
        assert(t1.names()[a.slot() as int] == name);
    }
    if !t0.names().contains(name) {
        assert(t1.names() == t0.names().push(name));
    }
    assert(t1.wf());
    if a.slot() != b.slot() {
        assert(t1.names()[a.slot() as int] != t1.names()[b.slot() as int]);
    }
}

/// Distinct names interned by one table give distinct symbols.
pub proof fn lemma_interning_distinct_names(t: SymTable, x: Seq<char>, y: Seq<char>, a: Symbol, b: Symbol)
    requires
        a.owner() == t.tag(),
        b.owner() == t.tag(),
        a.slot() < t.names().len(),
        b.slot() < t.names().len(),
        t.names()[a.slot() as int] == x,
        t.names()[b.slot() as int] == y,
        x != y,
    ensures
        a != b,
{
}

/// Interning is scoped: tables with distinct tags never give equal symbols,
/// whatever the names.
pub proof fn lemma_interning_scoped(
    s0: SymTable,
    s1: SymTable,
    t0: SymTable,
    t1: SymTable,
    x: Seq<char>,
    y: Seq<char>,
    a: Symbol,
    b: Symbol,
)
    requires
        s0.tag() != t0.tag(),
        SymTable::interning(s0, x, s1, a),
        SymTable::interning(t0, y, t1, b),
    ensures
        a != b,
{
}

} // verus!
