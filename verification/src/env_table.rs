//! An in-memory table of environment variables.
//!
//! The process-wide variable table is global mutable state; this module is
//! the single narrow stand-in for it, so that every write and read the
//! library reasons about goes through one verified type with map
//! semantics: each write binds a key, and the last write wins.

use crate::convert::{LookupResult, Value};
use crate::parse::{pairs_view, parse_entries};
use vstd::prelude::*;

verus! {

/// Applies entries to a map of variables in order: each entry binds its
/// key, later entries overwriting earlier ones.
pub open spec fn apply_entries(
    m: Map<Seq<char>, Seq<char>>,
    es: Seq<(Seq<char>, Seq<char>)>,
) -> Map<Seq<char>, Seq<char>>
    decreases es.len(),
{
    if es.len() == 0 {
        m
    } else {
        apply_entries(m.insert(es[0].0, es[0].1), es.drop_first())
    }
}

/// The value a map holds at a key, if any.
pub open spec fn value_at(m: Map<Seq<char>, Seq<char>>, k: Seq<char>) -> Option<Seq<char>> {
    if m.contains_key(k) {
        Some(m[k])
    } else {
        None
    }
}

proof fn lemma_apply_entries_push(
    m: Map<Seq<char>, Seq<char>>,
    es: Seq<(Seq<char>, Seq<char>)>,
    p: (Seq<char>, Seq<char>),
)
    ensures
        apply_entries(m, es.push(p)) == apply_entries(m, es).insert(p.0, p.1),
    decreases es.len(),
{
    if es.len() == 0 {
        assert(es.push(p)[0] == p);
        assert(es.push(p).drop_first() =~= Seq::<(Seq<char>, Seq<char>)>::empty());
        assert(apply_entries(m.insert(p.0, p.1), Seq::<(Seq<char>, Seq<char>)>::empty())
            == m.insert(p.0, p.1));
    } else {
        assert(es.push(p)[0] == es[0]);
        assert(es.push(p).drop_first() =~= es.drop_first().push(p));
        lemma_apply_entries_push(m.insert(es[0].0, es[0].1), es.drop_first(), p);
    }
}

proof fn lemma_apply_entries_keeps(
    m: Map<Seq<char>, Seq<char>>,
    es: Seq<(Seq<char>, Seq<char>)>,
    k: Seq<char>,
)
    requires
        m.contains_key(k),
    ensures
        apply_entries(m, es).contains_key(k),
    decreases es.len(),
{
    if es.len() > 0 {
        lemma_apply_entries_keeps(m.insert(es[0].0, es[0].1), es.drop_first(), k);
    }
}

proof fn lemma_apply_entries_contains(
    m: Map<Seq<char>, Seq<char>>,
    es: Seq<(Seq<char>, Seq<char>)>,
    k: Seq<char>,
)
    requires
        exists|i: int| 0 <= i < es.len() && es[i].0 == k,
    ensures
        apply_entries(m, es).contains_key(k),
    decreases es.len(),
{
    let i = choose|i: int| 0 <= i < es.len() && es[i].0 == k;
    let mb = m.insert(es[0].0, es[0].1);
    if i == 0 {
        lemma_apply_entries_keeps(mb, es.drop_first(), k);
    } else {
        assert(es.drop_first()[i - 1].0 == k);
        lemma_apply_entries_contains(mb, es.drop_first(), k);
    }
}

proof fn lemma_apply_entries_agree(
    m1: Map<Seq<char>, Seq<char>>,
    m2: Map<Seq<char>, Seq<char>>,
    es: Seq<(Seq<char>, Seq<char>)>,
    k: Seq<char>,
)
    requires
        value_at(m1, k) == value_at(m2, k) || exists|i: int|
            0 <= i < es.len() && es[i].0 == k,
    ensures
        value_at(apply_entries(m1, es), k) == value_at(apply_entries(m2, es), k),
    decreases es.len(),
{
    if es.len() > 0 {
        let m1b = m1.insert(es[0].0, es[0].1);
        let m2b = m2.insert(es[0].0, es[0].1);
        if value_at(m1, k) == value_at(m2, k) || es[0].0 == k {
            assert(value_at(m1b, k) == value_at(m2b, k));
        } else {
            let i = choose|i: int| 0 <= i < es.len() && es[i].0 == k;
            assert(es.drop_first()[i - 1].0 == k);
        }
        lemma_apply_entries_agree(m1b, m2b, es.drop_first(), k);
    }
}

/// Law: re-initialization overwrites. Whatever a table held before, after
/// the entries of one text and then of a second are applied, any key the
/// second text binds is present and holds the value the entries of the
/// second text alone give it.
pub proof fn lemma_reinit_overwrites(
    m: Map<Seq<char>, Seq<char>>,
    first: Seq<char>,
    second: Seq<char>,
    k: Seq<char>,
)
    requires
        exists|i: int| 0 <= i < parse_entries(second).len() && parse_entries(second)[i].0 == k,
    ensures
        ({
            let after = apply_entries(apply_entries(m, parse_entries(first)), parse_entries(second));
            let alone = apply_entries(Map::<Seq<char>, Seq<char>>::empty(), parse_entries(second));
            after.contains_key(k) && alone.contains_key(k) && after[k] == alone[k]
        }),
{
    let mid = apply_entries(m, parse_entries(first));
    lemma_apply_entries_contains(mid, parse_entries(second), k);
    lemma_apply_entries_contains(Map::<Seq<char>, Seq<char>>::empty(), parse_entries(second), k);
    lemma_apply_entries_agree(mid, Map::<Seq<char>, Seq<char>>::empty(), parse_entries(second), k);
}

fn str_eq(a: &str, b: &str) -> (r: bool)
    ensures
        r == (a@ == b@),
{
    let na = a.unicode_len();
    let nb = b.unicode_len();
    if na != nb {
        return false;
    }
    let mut i: usize = 0;
    while i < na
        invariant
            i <= na,
            na == a@.len(),
            na == b@.len(),
            forall|j: int| 0 <= j < i ==> a@[j] == b@[j],
        decreases na - i,
    {
        if a.get_char(i) != b.get_char(i) {
            return false;
        }
        i = i + 1;
    }
    proof {
        assert(a@ =~= b@);
    }
    true
}

/// An in-memory table of environment variables. Writes are kept in
/// order; a lookup takes the latest binding of its key, so the last
/// write wins, exactly as assignment into a variable table would.
pub struct EnvTable {
    entries: Vec<(String, String)>,
}

impl EnvTable {
    /// The table as a map from each key to the value last written for it.
    pub closed spec fn view(&self) -> Map<Seq<char>, Seq<char>> {
        apply_entries(Map::empty(), pairs_view(self.entries@))
    }

    /// An empty table.
    pub fn new() -> (t: EnvTable)
        ensures
            t@ == Map::<Seq<char>, Seq<char>>::empty(),
    {
        let t = EnvTable { entries: Vec::new() };
        proof {
            assert(pairs_view(t.entries@) =~= Seq::<(Seq<char>, Seq<char>)>::empty());
        }
        t
    }

    /// Binds `key` to `value`, overwriting any earlier binding of the key.
    pub fn set_var(&mut self, key: String, value: String)
        ensures
            final(self)@ == old(self)@.insert(key@, value@),
    {
        proof {
            lemma_apply_entries_push(
                Map::<Seq<char>, Seq<char>>::empty(),
                pairs_view(self.entries@),
                (key@, value@),
            );
            assert(pairs_view(self.entries@.push((key, value))) =~= pairs_view(
                self.entries@,
            ).push((key@, value@)));
        }
        self.entries.push((key, value));
    }

    /// Looks `key` up: `Found` with the value last written for it, or
    /// `NotFound` when no entry binds it.
    pub fn var(&self, key: &str) -> (r: Value)
        ensures
            r.text() == value_at(self@, key@),
            r.0 is Found <==> self@.contains_key(key@),
            !self@.contains_key(key@) ==> r.0 is NotFound,
    {
        let ghost es = pairs_view(self.entries@);
        let mut i = self.entries.len();
        proof {
            assert(es.take(i as int) =~= es);
        }
        while i > 0
            invariant
                i <= self.entries.len(),
                es == pairs_view(self.entries@),
                forall|j: int| i <= j < es.len() ==> es[j].0 != key@,
                value_at(apply_entries(Map::<Seq<char>, Seq<char>>::empty(), es.take(i as int)), key@)
                    == value_at(self@, key@),
            decreases i,
        {
            i = i - 1;
            proof {
                assert(es.take(i as int + 1) =~= es.take(i as int).push(es[i as int]));
                lemma_apply_entries_push(
                    Map::<Seq<char>, Seq<char>>::empty(),
                    es.take(i as int),
                    es[i as int],
                );
                assert(es[i as int] == (self.entries@[i as int].0@, self.entries@[i as int].1@));
            }
            if str_eq(self.entries[i].0.as_str(), key) {
                let found = self.entries[i].1.clone();
                return Value(LookupResult::Found(found));
            }
        }
        proof {
            assert(es.take(0) =~= Seq::<(Seq<char>, Seq<char>)>::empty());
        }
        Value(LookupResult::NotFound)
    }

    /// Applies parsed entries to the table in order; on duplicate keys the
    /// later entry wins.
    pub fn apply(&mut self, pairs: &Vec<(String, String)>)
        ensures
            final(self)@ == apply_entries(old(self)@, pairs_view(pairs@)),
    {
        let ghost es = pairs_view(pairs@);
        proof {
            assert(es.take(0) =~= Seq::<(Seq<char>, Seq<char>)>::empty());
        }
        let mut i: usize = 0;
        while i < pairs.len()
            invariant
                i <= pairs.len(),
                es == pairs_view(pairs@),
                self@ == apply_entries(old(self)@, es.take(i as int)),
            decreases pairs.len() - i,
        {
            let key = pairs[i].0.clone();
            let value = pairs[i].1.clone();
            proof {
                assert(es.take(i as int + 1) =~= es.take(i as int).push(es[i as int]));
                lemma_apply_entries_push(old(self)@, es.take(i as int), es[i as int]);
                assert(es[i as int] == (pairs@[i as int].0@, pairs@[i as int].1@));
            }
            self.set_var(key, value);
            i = i + 1;
        }
        proof {
            assert(es.take(pairs@.len() as int) =~= es);
        }
    }

    /// Parses configuration text and applies every entry of it, in file
    /// order, to the table.
    pub fn init_with_content(&mut self, content: &str)
        ensures
            final(self)@ == apply_entries(old(self)@, parse_entries(content@)),
    {
        let pairs = crate::parse::parse_dotconf(content);
        self.apply(&pairs);
    }
}

} // verus!
