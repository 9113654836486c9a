use vstd::assert_by_contradiction;
use vstd::prelude::*;

use crate::error::Error;
use crate::scope::{parent_key, PARENT};
use crate::token::{Token, TokenV};

verus! {

/// Whether two string slices hold the same characters.
pub fn str_equal(a: &str, b: &str) -> (r: bool)
    ensures
        r == (a@ == b@),
{
    let sa = String::from_str(a);
    let sb = String::from_str(b);
    sa == sb
}

/// The mapping that a sequence of bindings denotes: later entries overwrite
/// earlier ones, as repeated insertions into a map would.
pub open spec fn tbl_view(s: Seq<(String, Token)>) -> Map<Seq<char>, TokenV>
    decreases s,
{
    if s.len() == 0 {
        Map::empty()
    } else {
        tbl_view(s.drop_last()).insert(s.last().0@, s.last().1@)
    }
}

pub broadcast proof fn lemma_tbl_view_contains(s: Seq<(String, Token)>, k: Seq<char>)
    ensures
        #[trigger] tbl_view(s).contains_key(k) <==> exists|i: int|
            0 <= i < s.len() && (#[trigger] s[i]).0@ == k,
    decreases s,
{
    if s.len() > 0 {
        lemma_tbl_view_contains(s.drop_last(), k);
        if tbl_view(s).contains_key(k) {
            if s.last().0@ != k {
                let d = s.drop_last();
                let i = choose|i: int| 0 <= i < d.len() && (#[trigger] d[i]).0@ == k;
                assert(s[i].0@ == k);
            }
        }
        if exists|i: int| 0 <= i < s.len() && (#[trigger] s[i]).0@ == k {
            let i = choose|i: int| 0 <= i < s.len() && (#[trigger] s[i]).0@ == k;
            if i < s.len() - 1 {
                assert(s.drop_last()[i].0@ == k);
            }
        }
    }
}

/// Name-to-value bindings owned by exactly one scope.
#[derive(Debug)]
pub struct SymbolTable {
    pub entries: Vec<(String, Token)>,
}

impl View for SymbolTable {
    type V = Map<Seq<char>, TokenV>;

    open spec fn view(&self) -> Map<Seq<char>, TokenV> {
        tbl_view(self.entries@)
    }
}

/// The parent identifier a symbol table records: the value under the
/// reserved key, provided that value is a scope identifier.
pub open spec fn spec_parent_of(m: Map<Seq<char>, TokenV>) -> Option<u128> {
    if m.contains_key(parent_key()) {
        match m[parent_key()] {
            TokenV::Id(p) => Some(p),
            _ => None,
        }
    } else {
        None
    }
}

impl SymbolTable {
    /// No binding names another: each name occurs at most once.
    pub open spec fn wf(&self) -> bool {
        forall|i: int, j: int|
            0 <= i < self.entries@.len() && 0 <= j < self.entries@.len() && i != j ==> (
            #[trigger] self.entries@[i]).0@ != (#[trigger] self.entries@[j]).0@
    }

    /// An empty symbol table.
    pub fn new() -> (r: SymbolTable)
        ensures
            r@ == Map::<Seq<char>, TokenV>::empty(),
            r.wf(),
    {
        SymbolTable { entries: Vec::new() }
    }

    /// Looks a name up, returning the value bound to it, if any.
    pub fn get(&self, name: &str) -> (r: Option<&Token>)
        requires
            self.wf(),
        ensures
            match r {
                Some(t) => self@.contains_key(name@) && t@ == self@[name@],
                None => !self@.contains_key(name@),
            },
    {
        proof {
            broadcast use lemma_tbl_view_contains;

        }
        let n = self.entries.len();
        let mut i: usize = 0;
        while i < n
            invariant
                self.wf(),
                n == self.entries@.len(),
                i <= n,
                forall|j: int| 0 <= j < i ==> (#[trigger] self.entries@[j]).0@ != name@,
            decreases n - i,
        {
            let e = &self.entries[i];
            if str_equal(e.0.as_str(), name) {
                proof {
                    lemma_tbl_value(self.entries@, i as int);
                }
                return Some(&e.1);
            }
            i = i + 1;
        }
        None
    }

    /// Whether a name is bound in this table.
    pub fn contains_key(&self, name: &str) -> (r: bool)
        requires
            self.wf(),
        ensures
            r == self@.contains_key(name@),
    {
        self.get(name).is_some()
    }

    /// Binds a name to a value, overwriting any earlier binding of the same
    /// name.
    pub fn insert(&mut self, name: String, value: Token)
        requires
            old(self).wf(),
        ensures
            final(self).wf(),
            final(self)@ == old(self)@.insert(name@, value@),
    {
        proof {
            broadcast use lemma_tbl_view_contains;

        }
        let n = self.entries.len();
        let mut i: usize = 0;
        while i < n
            invariant
                self.wf(),
                self == old(self),
                n == self.entries@.len(),
                i <= n,
                forall|j: int| 0 <= j < i ==> (#[trigger] self.entries@[j]).0@ != name@,
            decreases n - i,
        {
            let matches_here = str_equal(self.entries[i].0.as_str(), name.as_str());
            if matches_here {
                proof {
                    lemma_tbl_update(self.entries@, i as int, (name, value));
                }
                self.entries[i] = (name, value);
                return ;
            }
            i = i + 1;
        }
        self.entries.push((name, value));
        proof {
            assert(self.entries@.drop_last() =~= old(self).entries@);
            assert forall|a: int, b: int|
                0 <= a < self.entries@.len() && 0 <= b < self.entries@.len() && a
                    != b implies (#[trigger] self.entries@[a]).0@ != (
            #[trigger] self.entries@[b]).0@ by {
                if a < self.entries@.len() - 1 && b < self.entries@.len() - 1 {
                    assert(old(self).entries@[a].0@ != old(self).entries@[b].0@);
                }
            }
        }
    }

    /// The identifier of this scope's parent, read from the reserved entry
    /// that scope creation placed in the table, if there is one.
    pub fn get_parent_id(&self) -> (r: Option<u128>)
        requires
            self.wf(),
        ensures
            r == spec_parent_of(self@),
    {
        match self.get(PARENT) {
            Some(t) => match t {
                Token::Id(p) => Some(*p),
                _ => None,
            },
            None => None,
        }
    }
}

/// The mathematical content of a scope table: the registered scopes in the
/// order of their creation, each with the mapping its symbol table denotes.
pub type ScopeModel = Seq<(u128, Map<Seq<char>, TokenV>)>;

/// Whether a scope with the given identifier is registered.
pub open spec fn has_id(m: ScopeModel, id: u128) -> bool {
    exists|i: int| 0 <= i < m.len() && (#[trigger] m[i]).0 == id
}

/// The position at which a scope is registered.
pub open spec fn idx_of(m: ScopeModel, id: u128) -> int {
    choose|i: int| 0 <= i < m.len() && (#[trigger] m[i]).0 == id
}

/// The symbol-table mapping of a registered scope.
pub open spec fn table_of(m: ScopeModel, id: u128) -> Map<Seq<char>, TokenV> {
    m[idx_of(m, id)].1
}

/// No two scopes share an identifier.
pub open spec fn distinct_ids(m: ScopeModel) -> bool {
    forall|i: int, j: int|
        0 <= i < m.len() && 0 <= j < m.len() && i != j ==> (#[trigger] m[i]).0 != (
        #[trigger] m[j]).0
}

/// The scope at a position names as parent, if any, a scope registered
/// strictly earlier.
pub open spec fn parent_earlier(m: ScopeModel, i: int) -> bool {
    match spec_parent_of(m[i].1) {
        Some(p) => exists|j: int| 0 <= j < i && (#[trigger] m[j]).0 == p,
        None => true,
    }
}

/// A scope table is well formed when identifiers are distinct and every
/// parent link points to a scope registered strictly earlier; the chain of
/// parents from any scope therefore never cycles and never dangles.
pub open spec fn wf_model(m: ScopeModel) -> bool {
    distinct_ids(m) && (forall|i: int| 0 <= i < m.len() ==> #[trigger] parent_earlier(m, i))
}

pub proof fn lemma_idx_of(m: ScopeModel, id: u128)
    requires
        distinct_ids(m),
        has_id(m, id),
    ensures
        0 <= idx_of(m, id) < m.len(),
        m[idx_of(m, id)].0 == id,
        forall|i: int| 0 <= i < m.len() && (#[trigger] m[i]).0 == id ==> i == idx_of(m, id),
{
    let k = idx_of(m, id);
    assert forall|i: int| 0 <= i < m.len() && (#[trigger] m[i]).0 == id implies i == k by {
        if i != k {
            assert(m[i].0 != m[k].0);
        }
    }
}

/// In a well-formed table, following a parent link strictly lowers the
/// position: the measure by which name resolution terminates.
pub proof fn lemma_parent_step(m: ScopeModel, id: u128, p: u128)
    requires
        wf_model(m),
        has_id(m, id),
        spec_parent_of(table_of(m, id)) == Some(p),
    ensures
        has_id(m, p),
        idx_of(m, p) < idx_of(m, id),
{
    lemma_idx_of(m, id);
    let i = idx_of(m, id);
    assert(parent_earlier(m, i));
    let j = choose|j: int| 0 <= j < i && (#[trigger] m[j]).0 == p;
    assert(has_id(m, p));
    lemma_idx_of(m, p);
}

/// The scope in which a name reference starting from `id` resolves: the
/// nearest scope along the parent chain whose table binds `name`, or `None`
/// when no scope on the chain binds it.
pub open spec fn resolve(m: ScopeModel, id: u128, name: Seq<char>) -> Option<u128>
    decreases idx_of(m, id),
        when wf_model(m) && has_id(m, id)
{
    if table_of(m, id).contains_key(name) {
        Some(id)
    } else {
        match spec_parent_of(table_of(m, id)) {
            Some(p) => {
                proof {
                    lemma_parent_step(m, id, p);
                }
                resolve(m, p, name)
            },
            None => None,
        }
    }
}

/// The parent link of a registered scope.
pub open spec fn parent_of_scope(m: ScopeModel, id: u128) -> Option<u128> {
    spec_parent_of(table_of(m, id))
}

/// Whether `anc` lies on the chain of scopes from `d` upward: it is `d`
/// itself or is reached from `d` by following parent links.
pub open spec fn in_chain(m: ScopeModel, d: u128, anc: u128) -> bool
    decreases idx_of(m, d),
        when wf_model(m) && has_id(m, d)
{
    d == anc || match parent_of_scope(m, d) {
        Some(p) => {
            proof {
                lemma_parent_step(m, d, p);
            }
            in_chain(m, p, anc)
        },
        None => false,
    }
}

/// Whether no scope on the chain from `d` up to, but not including, `s`
/// binds `name`: the stretch of the chain below `s` leaves the name
/// unshadowed.
pub open spec fn chain_clear(m: ScopeModel, d: u128, s: u128, name: Seq<char>) -> bool
    decreases idx_of(m, d),
        when wf_model(m) && has_id(m, d)
{
    if d == s {
        true
    } else {
        !table_of(m, d).contains_key(name) && match parent_of_scope(m, d) {
            Some(p) => {
                proof {
                    lemma_parent_step(m, d, p);
                }
                chain_clear(m, p, s, name)
            },
            None => true,
        }
    }
}

/// Every scope on a chain is registered.
pub proof fn lemma_in_chain_has_id(m: ScopeModel, d: u128, x: u128)
    requires
        wf_model(m),
        has_id(m, d),
        in_chain(m, d, x),
    ensures
        has_id(m, x),
    decreases idx_of(m, d),
{
    if d != x {
        match parent_of_scope(m, d) {
            Some(p) => {
                lemma_parent_step(m, d, p);
                lemma_in_chain_has_id(m, p, x);
            },
            None => (),
        }
    }
}

/// Law: a name bound in scope `s` resolves to `s` from `s` itself and from
/// every scope that has `s` on its chain with no nearer binding of the
/// name: the nearest enclosing definition wins.
pub proof fn lemma_resolve_finds(m: ScopeModel, d: u128, s: u128, name: Seq<char>)
    requires
        wf_model(m),
        has_id(m, d),
        in_chain(m, d, s),
        chain_clear(m, d, s, name),
        table_of(m, s).contains_key(name),
    ensures
        resolve(m, d, name) == Some(s),
    decreases idx_of(m, d),
{
    if d != s {
        match parent_of_scope(m, d) {
            Some(p) => {
                lemma_parent_step(m, d, p);
                lemma_resolve_finds(m, p, s, name);
            },
            None => (),
        }
    }
}

/// Law: from a scope on whose chain no scope binds the name, resolution
/// fails.
pub proof fn lemma_resolve_unbound(m: ScopeModel, d: u128, name: Seq<char>)
    requires
        wf_model(m),
        has_id(m, d),
        forall|x: u128| #[trigger] in_chain(m, d, x) ==> !table_of(m, x).contains_key(name),
    ensures
        resolve(m, d, name) is None,
    decreases idx_of(m, d),
{
    assert(in_chain(m, d, d));
    match parent_of_scope(m, d) {
        Some(p) => {
            lemma_parent_step(m, d, p);
            assert forall|x: u128| #[trigger] in_chain(m, p, x) implies !table_of(
                m,
                x,
            ).contains_key(name) by {
                assert(in_chain(m, d, x));
            }
            lemma_resolve_unbound(m, p, name);
        },
        None => (),
    }
}

/// Law: from a scope whose chain does not pass through `s`, while no scope
/// other than `s` binds the name, resolution fails: an unrelated scope does
/// not see the binding.
pub proof fn lemma_resolve_unrelated(m: ScopeModel, d: u128, s: u128, name: Seq<char>)
    requires
        wf_model(m),
        has_id(m, d),
        !in_chain(m, d, s),
        forall|x: u128|
            has_id(m, x) && x != s ==> !(#[trigger] table_of(m, x)).contains_key(name),
    ensures
        resolve(m, d, name) is None,
{
    assert forall|x: u128| #[trigger] in_chain(m, d, x) implies !table_of(m, x).contains_key(
        name,
    ) by {
        lemma_in_chain_has_id(m, d, x);
        assert(x != s);
    }
    lemma_resolve_unbound(m, d, name);
}

/// Models that agree on identifiers and parent links position by position
/// have the same positions for the same identifiers.
pub proof fn lemma_same_ids_idx(m1: ScopeModel, m2: ScopeModel, id: u128)
    requires
        distinct_ids(m1),
        distinct_ids(m2),
        has_id(m1, id),
        m1.len() == m2.len(),
        forall|i: int| 0 <= i < m1.len() ==> (#[trigger] m1[i]).0 == m2[i].0,
    ensures
        has_id(m2, id),
        idx_of(m2, id) == idx_of(m1, id),
{
    lemma_idx_of(m1, id);
    assert(m2[idx_of(m1, id)].0 == id);
    lemma_idx_of(m2, id);
}

/// Rebinding names in one scope, while leaving every identifier and parent
/// link as it was, changes no chain and no clearance below other scopes:
/// reachability upward, and the absence of nearer bindings outside the
/// changed scope, are as before.
pub proof fn lemma_chain_facts_same(
    m1: ScopeModel,
    m2: ScopeModel,
    d: u128,
    s: u128,
    name: Seq<char>,
)
    requires
        wf_model(m1),
        wf_model(m2),
        has_id(m1, d),
        m1.len() == m2.len(),
        forall|i: int| 0 <= i < m1.len() ==> (#[trigger] m1[i]).0 == m2[i].0,
        forall|i: int|
            0 <= i < m1.len() ==> #[trigger] spec_parent_of(m2[i].1) == spec_parent_of(m1[i].1),
        forall|i: int| 0 <= i < m1.len() && m1[i].0 != s ==> (#[trigger] m2[i]).1 == m1[i].1,
    ensures
        in_chain(m2, d, s) == in_chain(m1, d, s),
        chain_clear(m2, d, s, name) == chain_clear(m1, d, s, name),
    decreases idx_of(m1, d),
{
    lemma_same_ids_idx(m1, m2, d);
    lemma_idx_of(m1, d);
    lemma_idx_of(m2, d);
    assert(parent_of_scope(m2, d) == parent_of_scope(m1, d));
    if d != s {
        assert(table_of(m2, d) == table_of(m1, d));
    }
    match parent_of_scope(m1, d) {
        Some(p) => {
            lemma_parent_step(m1, d, p);
            lemma_chain_facts_same(m1, m2, p, s, name);
        },
        None => (),
    }
}

/// The outcomes of one step of name lookup in a scope's own table.
pub enum Lookup {
    /// The name is bound in the scope with this identifier.
    Found(u128),
    /// The name is not bound here; the scope with this identifier is the
    /// parent to try next.
    CheckParent(u128),
    /// The name is not bound here and there is no parent: the name is
    /// unknown.
    NotFound,
}

/// The table a freshly created scope starts with: empty for a root scope,
/// and otherwise a single reserved entry naming the parent.
pub open spec fn init_table_model(parent: Option<u128>) -> Map<Seq<char>, TokenV> {
    match parent {
        None => Map::empty(),
        Some(p) => Map::empty().insert(parent_key(), TokenV::Id(p)),
    }
}

/// The registry of every scope's symbol table, keyed by scope identifier:
/// the one place symbol tables live.
#[derive(Debug)]
pub struct ScopeTable {
    pub entries: Vec<(u128, SymbolTable)>,
}

impl ScopeTable {
    /// The mathematical content of this table.
    pub open spec fn model(&self) -> ScopeModel {
        self.entries@.map_values(|e: (u128, SymbolTable)| (e.0, e.1@))
    }

    /// Well-formed content, and every symbol table free of duplicate names.
    pub open spec fn wf(&self) -> bool {
        wf_model(self.model()) && (forall|i: int|
            0 <= i < self.entries@.len() ==> (#[trigger] self.entries@[i]).1.wf())
    }

    /// An empty scope table.
    pub fn new() -> (r: ScopeTable)
        ensures
            r.model() == Seq::<(u128, Map<Seq<char>, TokenV>)>::empty(),
            r.wf(),
    {
        let r = ScopeTable { entries: Vec::new() };
        proof {
            assert(r.model() =~= Seq::<(u128, Map<Seq<char>, TokenV>)>::empty());
        }
        r
    }

    /// Whether a scope with this identifier is registered.
    pub fn contains_id(&self, id: u128) -> (r: bool)
        ensures
            r == has_id(self.model(), id),
    {
        let n = self.entries.len();
        let mut i: usize = 0;
        while i < n
            invariant
                n == self.entries@.len(),
                i <= n,
                forall|j: int| 0 <= j < i ==> (#[trigger] self.model()[j]).0 != id,
            decreases n - i,
        {
            if self.entries[i].0 == id {
                assert(self.model()[i as int].0 == id);
                return true;
            }
            i = i + 1;
        }
        false
    }

    /// The position at which a scope is registered.
    fn position_of(&self, id: u128) -> (r: usize)
        requires
            self.wf(),
            has_id(self.model(), id),
        ensures
            r == idx_of(self.model(), id),
    {
        proof {
            lemma_idx_of(self.model(), id);
        }
        let n = self.entries.len();
        let mut i: usize = 0;
        while i < n
            invariant
                self.wf(),
                has_id(self.model(), id),
                n == self.entries@.len(),
                i <= n,
                forall|j: int| 0 <= j < i ==> (#[trigger] self.model()[j]).0 != id,
            decreases n - i,
        {
            if self.entries[i].0 == id {
                proof {
                    assert(self.model()[i as int].0 == id);
                    lemma_idx_of(self.model(), id);
                }
                return i;
            }
            i = i + 1;
        }
        proof {
            lemma_idx_of(self.model(), id);
            assert(false);
        }
        0
    }

    /// The symbol table of a registered scope.
    pub fn get_table(&self, id: u128) -> (r: &SymbolTable)
        requires
            self.wf(),
            has_id(self.model(), id),
        ensures
            r@ == table_of(self.model(), id),
            r.wf(),
    {
        let pos = self.position_of(id);
        proof {
            lemma_idx_of(self.model(), id);
        }
        &self.entries[pos].1
    }

    /// Registers a fresh scope: enters an identifier not yet in the table,
    /// with an empty symbol table, or, when a parent is given, one holding
    /// only the reserved entry that names the parent.
    pub fn register(&mut self, id: u128, parent: Option<u128>)
        requires
            old(self).wf(),
            !has_id(old(self).model(), id),
            parent matches Some(p) ==> has_id(old(self).model(), p),
        ensures
            final(self).wf(),
            final(self).model() == old(self).model().push((id, init_table_model(parent))),
    {
        let mut t = SymbolTable::new();
        match parent {
            Some(p) => t.insert(String::from_str(PARENT), Token::Id(p)),
            None => (),
        }
        proof {
            assert(t@ =~= init_table_model(parent));
        }
        self.entries.push((id, t));
        proof {
            let m = self.model();
            let o = old(self).model();
            assert(m =~= o.push((id, init_table_model(parent))));
            let n = o.len() as int;
            assert forall|i: int| 0 <= i < m.len() implies #[trigger] parent_earlier(m, i) by {
                if i < n {
                    assert(parent_earlier(o, i));
                    assert(m[i] == o[i]);
                    match spec_parent_of(o[i].1) {
                        Some(p) => {
                            let j = choose|j: int| 0 <= j < i && (#[trigger] o[j]).0 == p;
                            assert(m[j].0 == p);
                        },
                        None => (),
                    }
                } else {
                    match parent {
                        Some(p) => {
                            assert(spec_parent_of(m[i].1) == Some(p));
                            let j = choose|j: int| 0 <= j < o.len() && (#[trigger] o[j]).0 == p;
                            assert(m[j].0 == p);
                        },
                        None => {
                            assert(spec_parent_of(m[i].1) == None::<u128>);
                        },
                    }
                }
            }
        }
    }

    /// Binds a name in the symbol table of one registered scope,
    /// overwriting any value that table already held for the name. The
    /// reserved parent entry is out of its reach.
    pub fn define(&mut self, id: u128, name: String, value: Token)
        requires
            old(self).wf(),
            has_id(old(self).model(), id),
            name@ != parent_key(),
        ensures
            final(self).wf(),
            final(self).model() == old(self).model().update(
                idx_of(old(self).model(), id),
                (id, table_of(old(self).model(), id).insert(name@, value@)),
            ),
    {
        proof {
            lemma_idx_of(old(self).model(), id);
        }
        let ghost o = old(self).model();
        let ghost newtbl = table_of(old(self).model(), id).insert(name@, value@);
        let pos = self.position_of(id);
        let entry = &mut self.entries[pos];
        entry.1.insert(name, value);
        proof {
            let m = self.model();
            assert(m =~= o.update(idx_of(o, id), (id, newtbl)));
            assert(spec_parent_of(newtbl) == spec_parent_of(o[idx_of(o, id)].1)) by {
                assert(newtbl.contains_key(parent_key()) == o[idx_of(o, id)].1.contains_key(
                    parent_key(),
                ));
                if newtbl.contains_key(parent_key()) {
                    assert(newtbl[parent_key()] == o[idx_of(o, id)].1[parent_key()]);
                }
            }
            lemma_same_structure_wf(o, m);
        }
    }
}

impl ScopeTable {
    /// One step of name lookup: checks the symbol table of the scope `id`
    /// for `symbol`; when the name is absent, reports the parent to try
    /// next, if the scope has one.
    pub fn lookup(&self, id: u128, symbol: &str) -> (r: Lookup)
        requires
            self.wf(),
            has_id(self.model(), id),
        ensures
            match r {
                Lookup::Found(f) => f == id && table_of(self.model(), id).contains_key(symbol@),
                Lookup::CheckParent(p) => !table_of(self.model(), id).contains_key(symbol@)
                    && spec_parent_of(table_of(self.model(), id)) == Some(p),
                Lookup::NotFound => !table_of(self.model(), id).contains_key(symbol@)
                    && spec_parent_of(table_of(self.model(), id)) is None,
            },
    {
        let tbl = self.get_table(id);
        if tbl.contains_key(symbol) {
            Lookup::Found(id)
        } else {
            match tbl.get_parent_id() {
                Some(p) => Lookup::CheckParent(p),
                None => Lookup::NotFound,
            }
        }
    }

    /// Climbs the chain of parents from the scope `id` until it reaches a
    /// scope whose table binds `symbol`, returning that scope's identifier;
    /// when no scope on the chain binds the name, the identifier is unknown.
    pub fn find_symbol(&self, id: u128, symbol: &str) -> (r: Result<u128, Error>)
        requires
            self.wf(),
            has_id(self.model(), id),
        ensures
            match r {
                Ok(f) => resolve(self.model(), id, symbol@) == Some(f) && has_id(self.model(), f)
                    && table_of(self.model(), f).contains_key(symbol@),
                Err(e) => resolve(self.model(), id, symbol@) is None && e
                    == Error::UnknownIdentifier,
            },
    {
        let mut cur = id;
        loop
            invariant
                self.wf(),
                has_id(self.model(), cur),
                resolve(self.model(), cur, symbol@) == resolve(self.model(), id, symbol@),
            decreases idx_of(self.model(), cur),
        {
            match self.lookup(cur, symbol) {
                Lookup::Found(f) => {
                    return Ok(f);
                },
                Lookup::CheckParent(p) => {
                    proof {
                        lemma_parent_step(self.model(), cur, p);
                    }
                    cur = p;
                },
                Lookup::NotFound => {
                    return Err(Error::UnknownIdentifier);
                },
            }
        }
    }

    /// An identifier that no registered scope carries. Among the candidates
    /// `0 ..= n`, with `n` the number of registered scopes, at least one is
    /// free; the first free one is returned.
    pub fn unused_id(&self) -> (r: u128)
        requires
            self.wf(),
        ensures
            !has_id(self.model(), r),
    {
        let n = self.entries.len();
        let mut i: usize = 0;
        while i < n
            invariant
                self.wf(),
                n == self.entries@.len(),
                i <= n,
                forall|j: int| 0 <= j < i ==> #[trigger] has_id(self.model(), j as u128),
            decreases n - i,
        {
            if !self.contains_id(i as u128) {
                return i as u128;
            }
            i = i + 1;
        }
        proof {
            lemma_free_candidate(self.model(), n as int);
            let j = choose|j: int| 0 <= j <= n && !(#[trigger] has_id(self.model(), j as u128));
            assert(j == n as int);
        }
        n as u128
    }
}

/// A successful resolution names a registered scope whose table binds the
/// name.
pub proof fn lemma_resolve_props(m: ScopeModel, id: u128, name: Seq<char>)
    requires
        wf_model(m),
        has_id(m, id),
    ensures
        resolve(m, id, name) matches Some(f) ==> has_id(m, f) && table_of(m, f).contains_key(
            name,
        ),
    decreases idx_of(m, id),
{
    if !table_of(m, id).contains_key(name) {
        match spec_parent_of(table_of(m, id)) {
            Some(p) => {
                lemma_parent_step(m, id, p);
                lemma_resolve_props(m, p, name);
            },
            None => (),
        }
    }
}

/// Models with identifiers equal position by position register the same
/// identifiers.
pub proof fn lemma_same_ids_has_id(m1: ScopeModel, m2: ScopeModel)
    requires
        m1.len() == m2.len(),
        forall|i: int| 0 <= i < m1.len() ==> (#[trigger] m1[i]).0 == m2[i].0,
    ensures
        forall|x: u128| #[trigger] has_id(m2, x) == has_id(m1, x),
{
    assert forall|x: u128| #[trigger] has_id(m2, x) == has_id(m1, x) by {
        if has_id(m1, x) {
            let i = choose|i: int| 0 <= i < m1.len() && (#[trigger] m1[i]).0 == x;
            assert(m2[i].0 == x);
        }
        if has_id(m2, x) {
            let i = choose|i: int| 0 <= i < m2.len() && (#[trigger] m2[i]).0 == x;
            assert(m1[i].0 == x);
        }
    }
}

/// Pigeonhole: a model with distinct identifiers cannot contain every one
/// of the `n + 1` identifiers `0 ..= n` among its `n` entries, so at least
/// one of those candidates is free.
proof fn lemma_free_candidate(m: ScopeModel, n: int)
    requires
        distinct_ids(m),
        m.len() == n,
        0 <= n < 0x10000000000000000,
    ensures
        exists|j: int| 0 <= j <= n && !(#[trigger] has_id(m, j as u128)),
{
    broadcast use vstd::set::group_set_axioms;

    assert_by_contradiction!(exists|j: int| 0 <= j <= n && !(#[trigger] has_id(m, j as u128)), {
        let ids = m.map_values(|e: (u128, Map<Seq<char>, TokenV>)| e.0 as int);
        assert(ids.no_duplicates()) by {
            assert forall|i: int, j: int|
                0 <= i < ids.len() && 0 <= j < ids.len() && i != j implies ids[i] != ids[j] by {
                assert(m[i].0 != m[j].0);
            }
        }
        ids.unique_seq_to_set();
        let cand = vstd::set_lib::set_int_range(0, n + 1);
        vstd::set_lib::lemma_int_range(0, n + 1);
        assert(cand.subset_of(ids.to_set())) by {
            assert forall|x: int| cand.contains(x) implies ids.to_set().contains(x) by {
                assert(0 <= x <= n);
                assert(has_id(m, x as u128));
                let i = choose|i: int| 0 <= i < m.len() && (#[trigger] m[i]).0 == x as u128;
                assert(ids[i] == x);
                assert(ids.contains(ids[i]));
            }
        }
        vstd::set_lib::lemma_len_subset(cand, ids.to_set());
    });
}

/// Two models with the same identifiers in the same order and pointwise
/// equal parent links are well formed together.
pub proof fn lemma_same_structure_wf(o: ScopeModel, m: ScopeModel)
    requires
        wf_model(o),
        m.len() == o.len(),
        forall|i: int| 0 <= i < m.len() ==> (#[trigger] m[i]).0 == o[i].0,
        forall|i: int|
            0 <= i < m.len() ==> #[trigger] spec_parent_of(m[i].1) == spec_parent_of(o[i].1),
    ensures
        wf_model(m),
{
    assert forall|i: int| 0 <= i < m.len() implies #[trigger] parent_earlier(m, i) by {
        assert(parent_earlier(o, i));
        match spec_parent_of(m[i].1) {
            Some(p) => {
                let j = choose|j: int| 0 <= j < i && (#[trigger] o[j]).0 == p;
                assert(m[j].0 == p);
            },
            None => (),
        }
    }
}

/// Under distinct names, the binding at any index is what the denoted map
/// holds for its name.
proof fn lemma_tbl_value(s: Seq<(String, Token)>, i: int)
    requires
        0 <= i < s.len(),
        forall|a: int, b: int|
            0 <= a < s.len() && 0 <= b < s.len() && a != b ==> (#[trigger] s[a]).0@ != (
            #[trigger] s[b]).0@,
    ensures
        tbl_view(s).contains_key(s[i].0@),
        tbl_view(s)[s[i].0@] == s[i].1@,
    decreases s,
{
    broadcast use lemma_tbl_view_contains;

    if i < s.len() - 1 {
        lemma_tbl_value(s.drop_last(), i);
        assert(s.drop_last()[i] == s[i]);
        assert(s.last().0@ != s[i].0@);
    }
}

/// Overwriting the one binding that carries a name denotes the same map as
/// inserting that name afresh.
proof fn lemma_tbl_update(s: Seq<(String, Token)>, i: int, e: (String, Token))
    requires
        0 <= i < s.len(),
        s[i].0@ == e.0@,
        forall|a: int, b: int|
            0 <= a < s.len() && 0 <= b < s.len() && a != b ==> (#[trigger] s[a]).0@ != (
            #[trigger] s[b]).0@,
    ensures
        tbl_view(s.update(i, e)) == tbl_view(s).insert(e.0@, e.1@),
        forall|a: int, b: int|
            0 <= a < s.update(i, e).len() && 0 <= b < s.update(i, e).len() && a != b ==> (
            #[trigger] s.update(i, e)[a]).0@ != (#[trigger] s.update(i, e)[b]).0@,
    decreases s,
{
    let t = s.update(i, e);
    assert forall|a: int, b: int|
        0 <= a < t.len() && 0 <= b < t.len() && a != b implies (#[trigger] t[a]).0@ != (
    #[trigger] t[b]).0@ by {
        assert(t[a].0@ == s[a].0@);
        assert(t[b].0@ == s[b].0@);
    }
    if i == s.len() - 1 {
        assert(t.drop_last() =~= s.drop_last());
        assert(tbl_view(t) == tbl_view(s.drop_last()).insert(e.0@, e.1@));
        assert(tbl_view(s).insert(e.0@, e.1@) =~= tbl_view(s.drop_last()).insert(e.0@, e.1@));
    } else {
        lemma_tbl_update(s.drop_last(), i, e);
        assert(t.drop_last() =~= s.drop_last().update(i, e));
        assert(t.last() == s.last());
        assert(tbl_view(t) == tbl_view(s.drop_last()).insert(e.0@, e.1@).insert(
            s.last().0@,
            s.last().1@,
        ));
        assert(s.last().0@ != e.0@);
        assert(tbl_view(s.drop_last()).insert(e.0@, e.1@).insert(s.last().0@, s.last().1@)
            =~= tbl_view(s.drop_last()).insert(s.last().0@, s.last().1@).insert(e.0@, e.1@));
    }
}

} // verus!
