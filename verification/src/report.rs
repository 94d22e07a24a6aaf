//! The pure result-report transform.
//!
//! A search path is a sequence of catalog indices in application order.
//! The report run-length-encodes runs of consecutive equal indices into
//! `{name, count, subtotal}` entries — adjacency in application order, no
//! sorting — and carries the final remainder along.  An empty path yields
//! a report with no entries: the "no solution" report.

use vstd::prelude::*;

use crate::spells::{Catalog, SpellV};

verus! {

/// Mathematical image of one report line.
#[verifier::ext_equal]
pub ghost struct ReportEntryV {
    pub name: Seq<char>,
    pub count: int,
    pub subtotal: int,
}

/// Mathematical image of a whole report.
#[verifier::ext_equal]
pub ghost struct ResultReportV {
    pub entries: Seq<ReportEntryV>,
    pub remainder: int,
}

/// One line of the report: a spell name, how many consecutive times it
/// was applied, and the damage that run dealt in all.
pub struct ReportEntry {
    pub name: String,
    pub count: usize,
    pub subtotal: i64,
}

impl View for ReportEntry {
    type V = ReportEntryV;

    open spec fn view(&self) -> ReportEntryV {
        ReportEntryV {
            name: self.name@,
            count: self.count as int,
            subtotal: self.subtotal as int,
        }
    }
}

/// The structured summary of a search result: the run-length-encoded
/// path and the final remainder.  No entries means no solution.
pub struct ResultReport {
    pub entries: Vec<ReportEntry>,
    pub remainder: i64,
}

impl View for ResultReport {
    type V = ResultReportV;

    open spec fn view(&self) -> ResultReportV {
        ResultReportV {
            entries: self.entries@.map_values(|e: ReportEntry| e@),
            remainder: self.remainder as int,
        }
    }
}

/// Run-length encoding of a path: each maximal run of consecutive equal
/// indices becomes one `(index, length of the run)` group.
pub open spec fn rle(p: Seq<usize>) -> Seq<(usize, int)>
    decreases p.len(),
{
    if p.len() == 0 {
        Seq::empty()
    } else {
        let groups = rle(p.drop_last());
        if groups.len() > 0 && groups.last().0 == p.last() {
            groups.update(groups.len() - 1, (p.last(), groups.last().1 + 1))
        } else {
            groups.push((p.last(), 1))
        }
    }
}

/// The report line a group stands for: the spell's name, the run length,
/// and the run's total damage.
pub open spec fn entry_of(cat: Seq<SpellV>, g: (usize, int)) -> ReportEntryV {
    ReportEntryV {
        name: cat[g.0 as int].name,
        count: g.1,
        subtotal: g.1 * cat[g.0 as int].damage,
    }
}

/// What [`report`] returns: one line per run, plus the remainder.
pub open spec fn report_spec(cat: Seq<SpellV>, p: Seq<usize>, remainder: int) -> ResultReportV {
    ResultReportV {
        entries: rle(p).map_values(|g: (usize, int)| entry_of(cat, g)),
        remainder,
    }
}

/// A non-empty path's encoding is non-empty and its last group carries
/// the path's last index.
proof fn lemma_rle_last(p: Seq<usize>)
    requires
        p.len() > 0,
    ensures
        rle(p).len() > 0,
        rle(p).last().0 == p.last(),
{
}

/// Every run is at least one long and no longer than the path.
proof fn lemma_rle_counts(p: Seq<usize>)
    ensures
        forall|j: int| 0 <= j < rle(p).len() ==> 1 <= (#[trigger] rle(p)[j]).1 <= p.len(),
    decreases p.len(),
{
    if p.len() > 0 {
        lemma_rle_counts(p.drop_last());
        let groups = rle(p.drop_last());
        assert forall|j: int| 0 <= j < rle(p).len() implies 1 <= (#[trigger] rle(p)[j]).1
            <= p.len() by {
            if groups.len() > 0 && groups.last().0 == p.last() {
                if j < groups.len() - 1 {
                    assert(rle(p)[j] == groups[j]);
                } else {
                    assert(rle(p)[j] == (p.last(), groups.last().1 + 1));
                }
            } else {
                if j < groups.len() {
                    assert(rle(p)[j] == groups[j]);
                }
            }
        }
    }
}

/// Entry sequences agree exactly when they encode the same groups,
/// entry by entry.
proof fn lemma_map_entries(cat: Seq<SpellV>, es: Seq<ReportEntry>, gs: Seq<(usize, int)>)
    requires
        es.len() == gs.len(),
        forall|k: int| 0 <= k < es.len() ==> (#[trigger] es[k])@ == entry_of(cat, gs[k]),
    ensures
        es.map_values(|e: ReportEntry| e@) == gs.map_values(|g: (usize, int)| entry_of(cat, g)),
{
    assert(es.map_values(|e: ReportEntry| e@) =~= gs.map_values(
        |g: (usize, int)| entry_of(cat, g),
    ));
}

/// Read one entry back out of an encoded-groups equality.
proof fn lemma_map_entries_index(cat: Seq<SpellV>, es: Seq<ReportEntry>, gs: Seq<(usize, int)>, k: int)
    requires
        es.map_values(|e: ReportEntry| e@) == gs.map_values(|g: (usize, int)| entry_of(cat, g)),
        es.len() == gs.len(),
        0 <= k < es.len(),
    ensures
        es[k]@ == entry_of(cat, gs[k]),
{
    assert(es.map_values(|e: ReportEntry| e@)[k] == es[k]@);
    assert(gs.map_values(|g: (usize, int)| entry_of(cat, g))[k] == entry_of(cat, gs[k]));
}

/// Turn a search path and its remainder into the structured report: the
/// run-length encoding of the path, in application order, with each run's
/// name, length and damage subtotal.  Pure: the result is a function of
/// the arguments alone, and the inputs are only read.
#[verifier::loop_isolation(false)]
pub fn report(catalog: &Catalog, path: &Vec<usize>, remainder: i64) -> (r: ResultReport)
    requires
        catalog.wf(),
        forall|i: int| 0 <= i < path@.len() ==> (path@[i] as int) < catalog@.len(),
        path@.len() <= 0x7fff_ffff,
    ensures
        r@ == report_spec(catalog@, path@, remainder as int),
{
    let mut entries: Vec<ReportEntry> = Vec::new();
    let mut i: usize = 0;
    while i < path.len()
        invariant
            i <= path@.len(),
            entries@.map_values(|e: ReportEntry| e@) == rle(path@.take(i as int)).map_values(
                |g: (usize, int)| entry_of(catalog@, g),
            ),
            entries@.len() == rle(path@.take(i as int)).len(),
        decreases path@.len() - i,
    {
        let idx = path[i];
        let d = catalog.damage_at(idx);
        let ghost pre = path@.take(i as int);
        proof {
            assert(path@.take(i + 1).drop_last() =~= pre);
            assert(path@.take(i + 1).last() == path@[i as int]);
            lemma_rle_counts(pre);
        }
        if i > 0 && path[i - 1] == idx {
            proof {
                lemma_rle_last(pre);
                assert(pre.last() == path@[i - 1]);
            }
            let ghost g = rle(pre).last();
            let ghost epre = entries@;
            proof {
                lemma_map_entries_index(catalog@, epre, rle(pre), epre.len() - 1);
                assert(epre.last()@ == entry_of(catalog@, g));
            }
            let last_entry = match entries.pop() {
                Some(e) => e,
                None => ReportEntry { name: String::new(), count: 0, subtotal: 0 },
            };
            proof {
                assert(last_entry@ == entry_of(catalog@, g));
                assert(1 <= g.1 <= pre.len());
                assert(g.1 * (d as int) <= 0x7fff_ffff * 0x7fff_ffff && g.1 * (d as int)
                    >= 0) by (nonlinear_arith)
                    requires
                        0 <= g.1 <= 0x7fff_ffff,
                        0 < d as int <= 0x7fff_ffff,
                ;
            }
            let count = last_entry.count + 1;
            let subtotal = last_entry.subtotal + d as i64;
            entries.push(ReportEntry { name: last_entry.name, count, subtotal });
            proof {
                let gs2 = rle(path@.take(i + 1));
                assert(gs2 == rle(pre).update(rle(pre).len() - 1, (path@[i as int], g.1 + 1)));
                assert((g.1 + 1) * (d as int) == g.1 * (d as int) + d as int) by (nonlinear_arith);
                assert forall|k: int| 0 <= k < entries@.len() implies (#[trigger] entries@[k])@
                    == entry_of(catalog@, gs2[k]) by {
                    if k < entries@.len() - 1 {
                        assert(entries@[k] == epre[k]);
                        assert(gs2[k] == rle(pre)[k]);
                        lemma_map_entries_index(catalog@, epre, rle(pre), k);
                    } else {
                        assert(gs2[k] == (path@[i as int], g.1 + 1int));
                    }
                }
                lemma_map_entries(catalog@, entries@, gs2);
            }
        } else {
            let name = catalog.name_at(idx).clone();
            let ghost epre = entries@;
            entries.push(ReportEntry { name, count: 1, subtotal: d as i64 });
            proof {
                let gs2 = rle(path@.take(i + 1));
                assert(gs2 == rle(pre).push((path@[i as int], 1)));
                assert forall|k: int| 0 <= k < entries@.len() implies (#[trigger] entries@[k])@
                    == entry_of(catalog@, gs2[k]) by {
                    if k < entries@.len() - 1 {
                        assert(entries@[k] == epre[k]);
                        assert(gs2[k] == rle(pre)[k]);
                        lemma_map_entries_index(catalog@, epre, rle(pre), k);
                    } else {
                        assert(gs2[k] == (path@[i as int], 1int));
                        assert(1 * (d as int) == d as int);
                    }
                }
                lemma_map_entries(catalog@, entries@, gs2);
            }
        }
        i += 1;
    }
    proof {
        assert(path@.take(path@.len() as int) =~= path@);
    }
    ResultReport { entries, remainder }
}

} // verus!
