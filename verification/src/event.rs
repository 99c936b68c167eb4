//! Per-chain event logs and the event-assertion matcher: an ordered
//! subsequence match of tagged event patterns, each with field-level
//! predicates, against the events a chain emitted since a checkpoint.

use vstd::prelude::*;
use crate::channel::ChainId;

verus! {

/// One event as a chain runtime emits it: a numeric variant tag and the
/// variant's fields, flattened to plain values.
#[derive(PartialEq, Eq, Debug)]
pub struct Event {
    pub tag: u64,
    pub attrs: Vec<u64>,
}

/// Mathematical model of an event.
#[verifier::ext_equal]
pub ghost struct EventModel {
    pub tag: u64,
    pub attrs: Seq<u64>,
}

impl View for Event {
    type V = EventModel;

    open spec fn view(&self) -> EventModel {
        EventModel { tag: self.tag, attrs: self.attrs@ }
    }
}

pub open spec fn events_view(s: Seq<Event>) -> Seq<EventModel> {
    s.map_values(|e: Event| e@)
}

/// One entry of a chain's append-only event log: the emitting chain, the
/// scheduler round of the emission, and the event itself.
#[derive(PartialEq, Eq, Debug)]
pub struct EventLogEntry {
    pub chain: ChainId,
    pub round: u64,
    pub tag: u64,
    pub attrs: Vec<u64>,
}

/// Mathematical model of a log entry.
#[verifier::ext_equal]
pub ghost struct EntryModel {
    pub chain: ChainId,
    pub round: u64,
    pub tag: u64,
    pub attrs: Seq<u64>,
}

impl View for EventLogEntry {
    type V = EntryModel;

    open spec fn view(&self) -> EntryModel {
        EntryModel { chain: self.chain, round: self.round, tag: self.tag, attrs: self.attrs@ }
    }
}

pub open spec fn entries_view(s: Seq<EventLogEntry>) -> Seq<EntryModel> {
    s.map_values(|e: EventLogEntry| e@)
}

/// A predicate on one field of an event: the attribute at `index` must
/// equal `expected`.
#[derive(Clone, Copy, PartialEq, Eq, Structural, Debug)]
pub struct FieldCheck {
    pub index: usize,
    pub expected: u64,
}

/// An expected event: a variant tag together with field predicates, all
/// of which must hold of one log entry (a conjunction).
#[derive(PartialEq, Eq, Debug)]
pub struct EventPattern {
    pub tag: u64,
    pub checks: Vec<FieldCheck>,
}

/// Mathematical model of a pattern.
#[verifier::ext_equal]
pub ghost struct PatternModel {
    pub tag: u64,
    pub checks: Seq<FieldCheck>,
}

impl View for EventPattern {
    type V = PatternModel;

    open spec fn view(&self) -> PatternModel {
        PatternModel { tag: self.tag, checks: self.checks@ }
    }
}

pub open spec fn patterns_view(s: Seq<EventPattern>) -> Seq<PatternModel> {
    s.map_values(|p: EventPattern| p@)
}

/// Whether one log entry satisfies one pattern: same tag, and every field
/// predicate holds.
pub open spec fn spec_matches_entry(e: EntryModel, p: PatternModel) -> bool {
    &&& e.tag == p.tag
    &&& forall|i: int|
        0 <= i < p.checks.len() ==> {
            &&& (#[trigger] p.checks[i]).index < e.attrs.len()
            &&& e.attrs[p.checks[i].index as int] == p.checks[i].expected
        }
}

/// How many leading patterns an in-order scan of `log` can match: walk
/// the log once, and advance to the next pattern whenever the current
/// entry satisfies the current pattern. The whole pattern list is
/// matchable as an ordered (not necessarily contiguous) subsequence of
/// the log exactly when this count reaches `pats.len()`.
pub open spec fn spec_match_count(log: Seq<EntryModel>, pats: Seq<PatternModel>) -> nat
    decreases log.len(),
{
    if pats.len() == 0 || log.len() == 0 {
        0
    } else if spec_matches_entry(log[0], pats[0]) {
        (1 + spec_match_count(log.skip(1), pats.skip(1))) as nat
    } else {
        spec_match_count(log.skip(1), pats)
    }
}

pub proof fn lemma_match_count_bound(log: Seq<EntryModel>, pats: Seq<PatternModel>)
    ensures
        spec_match_count(log, pats) <= pats.len(),
    decreases log.len(),
{
    if pats.len() == 0 || log.len() == 0 {
    } else if spec_matches_entry(log[0], pats[0]) {
        lemma_match_count_bound(log.skip(1), pats.skip(1));
    } else {
        lemma_match_count_bound(log.skip(1), pats);
    }
}

/// Failure of an event assertion: the index of the first expected
/// pattern that could not be matched, and the full observed log slice,
/// kept for diagnostics.
pub struct AssertionFailure {
    pub expected_pattern_index: usize,
    pub observed: Vec<EventLogEntry>,
}

/// Whether the whole pattern list matches the log as an ordered
/// subsequence.
pub open spec fn spec_assertion_holds(log: Seq<EntryModel>, pats: Seq<PatternModel>) -> bool {
    spec_match_count(log, pats) == pats.len()
}

fn matches_entry(e: &EventLogEntry, p: &EventPattern) -> (r: bool)
    ensures
        r == spec_matches_entry(e@, p@),
{
    if e.tag != p.tag {
        return false;
    }
    let mut i: usize = 0;
    while i < p.checks.len()
        invariant
            i <= p.checks.len(),
            e.tag == p.tag,
            forall|j: int|
                0 <= j < i ==> {
                    &&& (#[trigger] p.checks@[j]).index < e.attrs.len()
                    &&& e.attrs@[p.checks@[j].index as int] == p.checks@[j].expected
                },
        decreases p.checks.len() - i,
    {
        let c = p.checks[i];
        if c.index >= e.attrs.len() {
            proof {
                assert(p@.checks[i as int] == c);
            }
            return false;
        }
        if e.attrs[c.index] != c.expected {
            proof {
                assert(p@.checks[i as int] == c);
            }
            return false;
        }
        i = i + 1;
    }
    true
}

/// Duplicates a slice of a log, entry by entry.
pub fn copy_entries(log: &Vec<EventLogEntry>, from: usize) -> (r: Vec<EventLogEntry>)
    requires
        from <= log.len(),
    ensures
        entries_view(r@) == entries_view(log@).skip(from as int),
{
    let mut r: Vec<EventLogEntry> = Vec::new();
    let mut i: usize = from;
    while i < log.len()
        invariant
            from <= i <= log.len(),
            r@.len() == i - from,
            forall|k: int| 0 <= k < r@.len() ==> (#[trigger] r@[k])@ == log@[from + k]@,
        decreases log.len() - i,
    {
        let e = &log[i];
        let mut attrs: Vec<u64> = Vec::new();
        let mut j: usize = 0;
        while j < e.attrs.len()
            invariant
                j <= e.attrs.len(),
                attrs@ =~= e.attrs@.take(j as int),
            decreases e.attrs.len() - j,
        {
            attrs.push(e.attrs[j]);
            j = j + 1;
        }
        proof {
            assert(attrs@ =~= e.attrs@);
        }
        let entry = EventLogEntry { chain: e.chain, round: e.round, tag: e.tag, attrs };
        proof {
            assert(entry@ =~= log@[i as int]@);
        }
        r.push(entry);
        i = i + 1;
    }
    proof {
        assert forall|i2: int| 0 <= i2 < entries_view(r@).len() implies entries_view(r@)[i2]
            == entries_view(log@).skip(from as int)[i2] by {
            assert(entries_view(r@)[i2] == r@[i2]@);
            assert(r@[i2]@ == log@[from + i2]@);
        }
        assert(entries_view(r@) =~= entries_view(log@).skip(from as int));
    }
    r
}

/// Matches an ordered list of expected patterns against a log slice.
///
/// Succeeds exactly when the patterns match, in relative order, a
/// (not necessarily contiguous) subsequence of the log; otherwise names
/// the first expected pattern that could not be matched and hands back a
/// copy of the observed log for diagnostics. Read-only: neither the log
/// nor any cursor is changed.
pub fn check_events(log: &Vec<EventLogEntry>, from: usize, pats: &Vec<EventPattern>) -> (r: Result<
    (),
    AssertionFailure,
>)
    requires
        from <= log.len(),
    ensures
        ({
            let tail = entries_view(log@).skip(from as int);
            let ps = patterns_view(pats@);
            &&& r is Ok <==> spec_assertion_holds(tail, ps)
            &&& (r matches Err(f) ==> {
                &&& f.expected_pattern_index == spec_match_count(tail, ps)
                &&& f.expected_pattern_index < pats.len()
                &&& entries_view(f.observed@) == tail
            })
        }),
{
    let ghost tail = entries_view(log@).skip(from as int);
    let ghost ps = patterns_view(pats@);
    let mut pi: usize = 0;
    let mut li: usize = from;
    proof {
        assert(ps.skip(0) =~= ps);
    }
    while li < log.len() && pi < pats.len()
        invariant
            from <= li <= log.len(),
            pi <= pats.len(),
            tail == entries_view(log@).skip(from as int),
            ps == patterns_view(pats@),
            spec_match_count(tail, ps) == pi + spec_match_count(
                entries_view(log@).skip(li as int),
                ps.skip(pi as int),
            ),
        decreases log.len() - li,
    {
        let ghost rest = entries_view(log@).skip(li as int);
        proof {
            assert(rest[0] == log@[li as int]@);
            assert(rest.skip(1) =~= entries_view(log@).skip(li as int + 1));
            assert(ps.skip(pi as int)[0] == pats@[pi as int]@);
            assert(ps.skip(pi as int).skip(1) =~= ps.skip(pi as int + 1));
        }
        if matches_entry(&log[li], &pats[pi]) {
            pi = pi + 1;
        }
        li = li + 1;
    }
    proof {
        if li == log.len() {
            assert(entries_view(log@).skip(li as int) =~= Seq::<EntryModel>::empty());
        } else {
            assert(ps.skip(pi as int) =~= Seq::<PatternModel>::empty());
        }
        assert(spec_match_count(tail, ps) == pi);
        lemma_match_count_bound(tail, ps);
    }
    if pi == pats.len() {
        Ok(())
    } else {
        Err(AssertionFailure { expected_pattern_index: pi, observed: copy_entries(log, from) })
    }
}

/// Ordering law: when the log's only entry satisfying the first pattern
/// stands strictly after its only entry satisfying the second, an
/// assertion expecting the two patterns in order fails, although both
/// are present.
pub proof fn lemma_assertion_order(
    log: Seq<EntryModel>,
    x: PatternModel,
    y: PatternModel,
    ix: int,
    iy: int,
)
    requires
        0 <= iy < ix < log.len(),
        spec_matches_entry(log[ix], x),
        spec_matches_entry(log[iy], y),
        forall|k: int| 0 <= k < log.len() && spec_matches_entry(#[trigger] log[k], x) ==> k == ix,
        forall|k: int| 0 <= k < log.len() && spec_matches_entry(#[trigger] log[k], y) ==> k == iy,
    ensures
        !spec_assertion_holds(log, seq![x, y]),
{
    lemma_order_aux(log, x, y, ix, iy);
}

proof fn lemma_order_aux(log: Seq<EntryModel>, x: PatternModel, y: PatternModel, ix: int, iy: int)
    requires
        0 <= ix < log.len(),
        spec_matches_entry(log[ix], x),
        forall|k: int| 0 <= k < log.len() && spec_matches_entry(#[trigger] log[k], x) ==> k == ix,
        forall|k: int| ix < k < log.len() ==> !spec_matches_entry(#[trigger] log[k], y),
    ensures
        spec_match_count(log, seq![x, y]) <= 1,
    decreases log.len(),
{
    let ps = seq![x, y];
    assert(log.len() > 0);
    if spec_matches_entry(log[0], ps[0]) {
        assert(ix == 0);
        assert(ps.skip(1) =~= seq![y]);
        assert forall|k: int| 0 <= k < log.skip(1).len() implies !spec_matches_entry(
            #[trigger] log.skip(1)[k],
            y,
        ) by {
            assert(log.skip(1)[k] == log[k + 1]);
        }
        lemma_only_pattern_unmatched(log.skip(1), y);
    } else {
        assert forall|k: int|
            0 <= k < log.skip(1).len() && spec_matches_entry(
                #[trigger] log.skip(1)[k],
                x,
            ) implies k == ix - 1 by {
            assert(log.skip(1)[k] == log[k + 1]);
        }
        assert forall|k: int| ix - 1 < k < log.skip(1).len() implies !spec_matches_entry(
            #[trigger] log.skip(1)[k],
            y,
        ) by {
            assert(log.skip(1)[k] == log[k + 1]);
        }
        lemma_order_aux(log.skip(1), x, y, ix - 1, iy);
    }
}

proof fn lemma_only_pattern_unmatched(log: Seq<EntryModel>, y: PatternModel)
    requires
        forall|k: int| 0 <= k < log.len() ==> !spec_matches_entry(#[trigger] log[k], y),
    ensures
        spec_match_count(log, seq![y]) == 0,
    decreases log.len(),
{
    if log.len() > 0 {
        assert(!spec_matches_entry(log[0], seq![y][0]));
        assert forall|k: int| 0 <= k < log.skip(1).len() implies !spec_matches_entry(
            #[trigger] log.skip(1)[k],
            y,
        ) by {
            assert(log.skip(1)[k] == log[k + 1]);
        }
        lemma_only_pattern_unmatched(log.skip(1), y);
    }
}

} // verus!
