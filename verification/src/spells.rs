//! Spells and the catalog they are gathered in.
//!
//! A [`Spell`] is a named action with a fixed positive damage value.  A
//! [`Catalog`] is the canonical list of spells for a search session: built
//! from caller-supplied records by keeping the enabled ones, rejecting an
//! empty or invalid selection, and sorting by descending damage with a
//! stable sort (ties keep their original relative order).

use vstd::prelude::*;

verus! {

/// Mathematical image of a spell: its name as a sequence of characters and
/// its damage as an unbounded integer.
#[verifier::ext_equal]
pub ghost struct SpellV {
    pub name: Seq<char>,
    pub damage: int,
}

/// A named action with a fixed damage value, usable any number of times.
pub struct Spell {
    pub name: String,
    pub damage: i32,
}

impl View for Spell {
    type V = SpellV;

    open spec fn view(&self) -> SpellV {
        SpellV { name: self.name@, damage: self.damage as int }
    }
}

/// One caller-supplied catalog entry, before filtering: a spell together
/// with an `enabled` switch.
pub struct SpellRecord {
    pub name: String,
    pub damage: i32,
    pub enabled: bool,
}

/// The spell a record describes, ignoring its `enabled` switch.
pub open spec fn spell_of(r: SpellRecord) -> SpellV {
    SpellV { name: r.name@, damage: r.damage as int }
}

/// What building a catalog goes wrong on.
#[derive(Clone, Copy, Debug, PartialEq, Eq, Structural)]
pub enum SearchError {
    /// No record is enabled: there is nothing to search with.
    EmptyCatalog,
    /// An enabled record has a non-positive damage value, or a search was
    /// asked for with a non-positive iteration budget or a negative
    /// tolerance.
    InvalidConfiguration,
}

/// The spells of the enabled records, in their original order.
pub open spec fn enabled_spells(rs: Seq<SpellRecord>) -> Seq<SpellV>
    decreases rs.len(),
{
    if rs.len() == 0 {
        Seq::empty()
    } else if rs.last().enabled {
        enabled_spells(rs.drop_last()).push(spell_of(rs.last()))
    } else {
        enabled_spells(rs.drop_last())
    }
}

/// Every spell in the sequence deals strictly positive damage.
pub open spec fn all_positive(s: Seq<SpellV>) -> bool {
    forall|i: int| 0 <= i < s.len() ==> s[i].damage > 0
}

/// The sequence is sorted by non-increasing damage.
pub open spec fn sorted_desc(s: Seq<SpellV>) -> bool {
    forall|i: int, j: int| 0 <= i <= j < s.len() ==> s[i].damage >= s[j].damage
}

/// Insert `x` behind every element whose damage is at least `x`'s: the
/// insertion step of a stable descending insertion sort.
pub open spec fn insert_desc(s: Seq<SpellV>, x: SpellV) -> Seq<SpellV>
    decreases s.len(),
{
    if s.len() == 0 {
        seq![x]
    } else if s.first().damage >= x.damage {
        seq![s.first()] + insert_desc(s.drop_first(), x)
    } else {
        seq![x] + s
    }
}

/// Stable insertion sort by descending damage: equal damage values keep
/// their original relative order.
pub open spec fn sort_desc(s: Seq<SpellV>) -> Seq<SpellV>
    decreases s.len(),
{
    if s.len() == 0 {
        Seq::empty()
    } else {
        insert_desc(sort_desc(s.drop_last()), s.last())
    }
}

/// The sequence of spells as plain values, for contracts.
pub open spec fn spells_view(s: Seq<Spell>) -> Seq<SpellV> {
    s.map_values(|sp: Spell| sp@)
}

/// If `p` counts the leading elements of `s` whose damage is at least
/// `x`'s, then inserting `x` at position `p` is exactly `insert_desc`.
proof fn lemma_insert_desc_at(s: Seq<SpellV>, x: SpellV, p: int)
    requires
        0 <= p <= s.len(),
        forall|i: int| 0 <= i < p ==> s[i].damage >= x.damage,
        p < s.len() ==> s[p].damage < x.damage,
    ensures
        insert_desc(s, x) == s.take(p) + seq![x] + s.skip(p),
    decreases p,
{
    if p == 0 {
        if s.len() == 0 {
            assert(insert_desc(s, x) =~= s.take(0) + seq![x] + s.skip(0));
        } else {
            assert(insert_desc(s, x) =~= s.take(0) + seq![x] + s.skip(0));
        }
    } else {
        assert(s.first().damage >= x.damage);
        lemma_insert_desc_at(s.drop_first(), x, p - 1);
        assert(seq![s.first()] + (s.drop_first().take(p - 1) + seq![x] + s.drop_first().skip(p - 1))
            =~= s.take(p) + seq![x] + s.skip(p));
    }
}

/// The canonical spell list of one search session: non-empty, every damage
/// positive, sorted by descending damage.
pub struct Catalog {
    pub(crate) spells: Vec<Spell>,
}

impl View for Catalog {
    type V = Seq<SpellV>;

    closed spec fn view(&self) -> Seq<SpellV> {
        spells_view(self.spells@)
    }
}

impl Catalog {
    /// Well-formedness: what every catalog built by [`Catalog::build`]
    /// guarantees and every search relies on.
    pub open spec fn wf(&self) -> bool {
        &&& self@.len() > 0
        &&& all_positive(self@)
        &&& sorted_desc(self@)
    }

    /// The damage values alone, as unbounded integers.
    pub open spec fn damages(&self) -> Seq<int> {
        self@.map_values(|s: SpellV| s.damage)
    }

    /// Build the catalog for a session: keep the enabled records, fail on
    /// an empty or non-positive selection, and stably sort the rest by
    /// descending damage.
    pub fn build(records: Vec<SpellRecord>) -> (r: Result<Catalog, SearchError>)
        ensures
            match r {
                Ok(c) => {
                    let en = enabled_spells(records@);
                    &&& en.len() > 0
                    &&& all_positive(en)
                    &&& c@ == sort_desc(en)
                    &&& c.wf()
                },
                Err(e) => {
                    let en = enabled_spells(records@);
                    ||| (e == SearchError::EmptyCatalog && en.len() == 0)
                    ||| (e == SearchError::InvalidConfiguration && en.len() > 0 && !all_positive(
                        en,
                    ))
                },
            },
    {
        let mut enabled: Vec<Spell> = Vec::new();
        let mut i: usize = 0;
        while i < records.len()
            invariant
                i <= records.len(),
                spells_view(enabled@) == enabled_spells(records@.take(i as int)),
            decreases records.len() - i,
        {
            if records[i].enabled {
                let sp = Spell { name: records[i].name.clone(), damage: records[i].damage };
                assert(sp@ == spell_of(records@[i as int]));
                enabled.push(sp);
                assert(spells_view(enabled@) =~= spells_view(enabled@.drop_last()).push(sp@));
            }
            proof {
                assert(records@.take(i + 1).drop_last() =~= records@.take(i as int));
                assert(records@.take(i + 1).last() == records@[i as int]);
            }
            i += 1;
        }
        proof {
            assert(records@.take(records@.len() as int) =~= records@);
        }

        if enabled.len() == 0 {
            return Err(SearchError::EmptyCatalog);
        }

        let mut j: usize = 0;
        while j < enabled.len()
            invariant
                j <= enabled@.len(),
                spells_view(enabled@) == enabled_spells(records@),
                forall|k: int| 0 <= k < j ==> spells_view(enabled@)[k].damage > 0,
            decreases enabled@.len() - j,
        {
            if enabled[j].damage <= 0 {
                assert(spells_view(enabled@)[j as int].damage <= 0);
                assert(!all_positive(enabled_spells(records@)));
                return Err(SearchError::InvalidConfiguration);
            }
            j += 1;
        }
        assert(all_positive(enabled_spells(records@)));

        let mut sorted: Vec<Spell> = Vec::new();
        let ghost en = spells_view(enabled@);
        let mut k: usize = 0;
        while k < enabled.len()
            invariant
                k <= enabled@.len(),
                en == spells_view(enabled@),
                all_positive(en),
                spells_view(sorted@) == sort_desc(en.take(k as int)),
                sorted_desc(spells_view(sorted@)),
                all_positive(spells_view(sorted@)),
            decreases enabled@.len() - k,
        {
            let x = Spell { name: enabled[k].name.clone(), damage: enabled[k].damage };
            assert(x@ == en[k as int]);
            let mut p: usize = 0;
            while p < sorted.len() && sorted[p].damage >= x.damage
                invariant
                    p <= sorted@.len(),
                    forall|q: int| 0 <= q < p ==> spells_view(sorted@)[q].damage >= x@.damage,
                decreases sorted@.len() - p,
            {
                p += 1;
            }
            proof {
                lemma_insert_desc_at(spells_view(sorted@), x@, p as int);
            }
            let ghost before = spells_view(sorted@);
            sorted.insert(p, x);
            proof {
                assert(spells_view(sorted@) =~= before.take(p as int) + seq![x@] + before.skip(
                    p as int,
                ));
                assert(spells_view(sorted@) == insert_desc(before, x@));
                assert(en.take(k + 1).drop_last() =~= en.take(k as int));
                assert(en.take(k + 1).last() == en[k as int]);
                assert(spells_view(sorted@) == sort_desc(en.take(k + 1)));
                assert forall|a: int, b: int| 0 <= a <= b < spells_view(sorted@).len() implies
                    spells_view(sorted@)[a].damage >= spells_view(sorted@)[b].damage by {
                    let pp = p as int;
                    if a < pp && b == pp {
                    } else if a == pp && b > pp {
                        assert(before[pp] == spells_view(sorted@)[pp + 1]);
                    }
                }
            }
            k += 1;
        }
        proof {
            assert(en.take(en.len() as int) =~= en);
        }

        let c = Catalog { spells: sorted };
        assert(c@.len() == sort_desc(en).len() && sort_desc(en).len() > 0) by {
            lemma_sort_desc_len(en);
        }
        Ok(c)
    }

    /// How many spells the catalog holds.
    pub fn len(&self) -> (r: usize)
        ensures
            r == self@.len(),
    {
        self.spells.len()
    }

    /// The damage of the spell at `i`.
    pub fn damage_at(&self, i: usize) -> (r: i32)
        requires
            i < self@.len(),
        ensures
            r as int == self@[i as int].damage,
    {
        self.spells[i].damage
    }

    /// The name of the spell at `i`.
    pub fn name_at(&self, i: usize) -> (r: &String)
        requires
            i < self@.len(),
        ensures
            r@ == self@[i as int].name,
    {
        &self.spells[i].name
    }
}

/// Sorting keeps the number of spells.
pub proof fn lemma_sort_desc_len(s: Seq<SpellV>)
    ensures
        sort_desc(s).len() == s.len(),
    decreases s.len(),
{
    if s.len() > 0 {
        lemma_sort_desc_len(s.drop_last());
        lemma_insert_desc_len(sort_desc(s.drop_last()), s.last());
    }
}

/// Inserting one spell grows the sequence by one.
pub proof fn lemma_insert_desc_len(s: Seq<SpellV>, x: SpellV)
    ensures
        insert_desc(s, x).len() == s.len() + 1,
    decreases s.len(),
{
    if s.len() > 0 && s.first().damage >= x.damage {
        lemma_insert_desc_len(s.drop_first(), x);
    }
}

} // verus!
