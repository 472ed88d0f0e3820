//! Facts about searching and reading that follow from the definitions.

use crate::reader::{
    any_spec, apply_event, apply_events, drain_spec, read_one, earlier, find_spec, first_occurrence, is_first_occurrence,
    occurs_at, ReadUntil, StreamEvent,
};
use vstd::prelude::*;

verus! {

/// A literal that occurs exactly once in the buffer is found where it is,
/// and the text splits into what comes before it, the literal itself, and
/// what is left after it.
pub proof fn lemma_unique_literal(p: String, b: Seq<char>, i: int, eof: bool)
    requires
        occurs_at(p@, b, i),
        forall|j: int| occurs_at(p@, b, j) ==> j == i,
    ensures
        find_spec(ReadUntil::String(p), b, eof) == Some((i, i + p@.len())),
        b.subrange(i, i + p@.len()) == p@,
        b.subrange(0, i) + p@ + b.skip(i + p@.len()) == b,
{
    assert(is_first_occurrence(p@, b, i));
    assert(first_occurrence(p@, b) == Some(i));
    assert(b.subrange(0, i) + p@ + b.skip(i + p@.len()) =~= b);
}

/// Asking for more characters than are pending gives no match while the
/// stream goes on, and everything pending once it has ended.
pub proof fn lemma_byte_count_short(n: usize, b: Seq<char>)
    requires
        b.len() < n,
    ensures
        find_spec(ReadUntil::NBytes(n), b, false) is None,
        b.len() > 0 ==> find_spec(ReadUntil::NBytes(n), b, true) == Some((0int, b.len() as int)),
{
}

/// Of two alternatives that match at the same start, the shorter match
/// wins, whichever is listed first.
pub proof fn lemma_any_same_start_shortest(
    x: ReadUntil,
    y: ReadUntil,
    v: Vec<ReadUntil>,
    b: Seq<char>,
    eof: bool,
    s: int,
    long_end: int,
    short_end: int,
)
    requires
        v@ == seq![x, y] || v@ == seq![y, x],
        find_spec(x, b, eof) == Some((s, long_end)),
        find_spec(y, b, eof) == Some((s, short_end)),
        short_end < long_end,
    ensures
        find_spec(ReadUntil::Any(v), b, eof) == Some((s, short_end)),
{
    lemma_any_of_two(v@, b, eof);
}

/// Of two alternatives that match at different starts, the earlier start
/// wins, whichever is listed first.
pub proof fn lemma_any_earliest_start(
    x: ReadUntil,
    y: ReadUntil,
    v: Vec<ReadUntil>,
    b: Seq<char>,
    eof: bool,
    s1: int,
    e1: int,
    s2: int,
    e2: int,
)
    requires
        v@ == seq![x, y] || v@ == seq![y, x],
        find_spec(x, b, eof) == Some((s1, e1)),
        find_spec(y, b, eof) == Some((s2, e2)),
        s1 < s2,
    ensures
        find_spec(ReadUntil::Any(v), b, eof) == Some((s1, e1)),
{
    lemma_any_of_two(v@, b, eof);
}

proof fn lemma_any_of_two(alts: Seq<ReadUntil>, b: Seq<char>, eof: bool)
    requires
        alts.len() == 2,
    ensures
        any_spec(alts, b, eof) == earlier(find_spec(alts[0], b, eof), find_spec(alts[1], b, eof)),
{
    let first = alts.drop_last();
    assert(first.drop_last() =~= Seq::<ReadUntil>::empty());
    assert(any_spec(first.drop_last(), b, eof) is None);
    assert(first.last() == alts[0]);
    assert(any_spec(first, b, eof) == find_spec(alts[0], b, eof));
}

/// Two byte-count reads in a row take the text from the front, the second
/// going on exactly where the first stopped: together they take a prefix of
/// the pending text, with no gap and no overlap.
pub proof fn lemma_byte_counts_partition(n: usize, m: usize, b: Seq<char>, eof: bool, e1: int, e2: int)
    requires
        find_spec(ReadUntil::NBytes(n), b, eof) == Some((0int, e1)),
        find_spec(ReadUntil::NBytes(m), b.skip(e1), eof) == Some((0int, e2)),
    ensures
        e1 <= b.len(),
        e1 + e2 <= b.len(),
        b.take(e1) + b.skip(e1).take(e2) == b.take(e1 + e2),
        b.take(e1 + e2) + b.skip(e1 + e2) == b,
{
    assert(b.take(e1) + b.skip(e1).take(e2) =~= b.take(e1 + e2));
    assert(b.take(e1 + e2) + b.skip(e1 + e2) =~= b);
}

/// Once the stream has ended, waiting for its end takes all that is pending,
/// with nothing before it; after that, neither a positive byte count nor a
/// non-empty literal can match.
pub proof fn lemma_end_takes_rest(b: Seq<char>, n: usize, p: String)
    requires
        n > 0,
        p@.len() > 0,
    ensures
        find_spec(ReadUntil::EOF, b, true) == Some((0int, b.len() as int)),
        b.skip(b.len() as int) == Seq::<char>::empty(),
        find_spec(ReadUntil::NBytes(n), Seq::<char>::empty(), true) is None,
        find_spec(ReadUntil::String(p), Seq::<char>::empty(), true) is None,
{
    assert(b.skip(b.len() as int) =~= Seq::<char>::empty());
    assert forall|q: int| !is_first_occurrence(p@, Seq::<char>::empty(), q) by {}
}

/// Once the stream has ended, no event changes the received text or the
/// end flag.
pub proof fn lemma_drain_after_end(state: (Seq<char>, bool), events: Seq<StreamEvent>)
    requires
        state.1,
    ensures
        drain_spec(state, events) == state,
{
}

/// Received characters keep the order of the bytes they come from: taking
/// events appends exactly their bytes, in order, at the end of what was
/// pending, and the end flag never goes back.
pub proof fn lemma_events_append_bytes(state: (Seq<char>, bool), events: Seq<StreamEvent>)
    ensures
        apply_events(state, events).0 == state.0 + bytes_of(events),
        state.1 ==> apply_events(state, events).1,
    decreases events.len(),
{
    if events.len() > 0 {
        lemma_events_append_bytes(state, events.drop_last());
        let mid = apply_events(state, events.drop_last());
        match events.last() {
            StreamEvent::Byte(b) => {
                assert(mid.0.push(b as char) =~= state.0 + bytes_of(events));
            },
            _ => {
                assert(mid.0 =~= state.0 + bytes_of(events));
            },
        }
    }
}

/// The characters that the byte events among `events` stand for, in order.
pub open spec fn bytes_of(events: Seq<StreamEvent>) -> Seq<char>
    decreases events.len(),
{
    if events.len() == 0 {
        Seq::empty()
    } else {
        match events.last() {
            StreamEvent::Byte(b) => bytes_of(events.drop_last()).push(b as char),
            _ => bytes_of(events.drop_last()),
        }
    }
}

/// A drain that starts before the stream has ended appends every byte it
/// takes, in order, also those that follow an end marker or a hang-up
/// error in the same delivery.
pub proof fn lemma_drain_appends(state: (Seq<char>, bool), events: Seq<StreamEvent>)
    requires
        !state.1,
    ensures
        drain_spec(state, events).0 == state.0 + bytes_of(events),
{
    lemma_events_append_bytes(state, events);
}

/// What `n` consecutive non-blocking reads give, starting from the pending
/// text `pending`, when nothing more arrives.
pub open spec fn read_many(pending: Seq<char>, n: nat) -> Seq<Option<char>>
    decreases n,
{
    if n == 0 {
        Seq::empty()
    } else {
        seq![read_one(pending).0] + read_many(read_one(pending).1, (n - 1) as nat)
    }
}

/// Once the stream has ended, consecutive non-blocking reads give the
/// pending characters in order and then nothing, on every further read:
/// the ended stream ignores all events, so each read is `read_one` on what
/// is left.
pub proof fn lemma_reads_after_end(state: (Seq<char>, bool), events: Seq<StreamEvent>, k: nat)
    requires
        state.1,
    ensures
        drain_spec(state, events) == state,
        read_many(state.0, state.0.len() + k)
            == state.0.map_values(|c: char| Some(c)) + Seq::new(k, |i: int| None::<char>),
    decreases state.0.len(),
{
    if state.0.len() == 0 {
        lemma_reads_of_empty(state.0, k);
        assert(state.0.map_values(|c: char| Some(c)) =~= Seq::<Option<char>>::empty());
        assert(state.0.map_values(|c: char| Some(c)) + Seq::new(k, |i: int| None::<char>)
            =~= Seq::new(k, |i: int| None::<char>));
    } else {
        let rest = state.0.drop_first();
        lemma_reads_after_end((rest, true), events, k);
        assert(read_one(state.0) == (Some(state.0[0]), rest));
        assert((state.0.len() + k - 1) as nat == rest.len() + k);
        assert(read_many(state.0, state.0.len() + k)
            == seq![Some(state.0[0])] + read_many(rest, rest.len() + k));
        assert(state.0.map_values(|c: char| Some(c)) + Seq::new(k, |i: int| None::<char>)
            =~= seq![Some(state.0[0])] + (rest.map_values(|c: char| Some(c)) + Seq::new(k, |i: int| None::<char>)));
    }
}

proof fn lemma_reads_of_empty(pending: Seq<char>, k: nat)
    requires
        pending.len() == 0,
    ensures
        read_many(pending, k) == Seq::new(k, |i: int| None::<char>),
    decreases k,
{
    if k > 0 {
        lemma_reads_of_empty(pending, (k - 1) as nat);
        assert(read_many(pending, k) =~= Seq::new(k, |i: int| None::<char>));
    } else {
        assert(read_many(pending, k) =~= Seq::new(k, |i: int| None::<char>));
    }
}

/// `span` starts before `other`, or at the same place and ends no later;
/// true when there is no `other`.
pub open spec fn no_later_than(span: (int, int), other: Option<(int, int)>) -> bool {
    match other {
        Some((s2, e2)) => span.0 < s2 || (span.0 == s2 && span.1 <= e2),
        None => true,
    }
}

/// The alternatives match at the lexicographically least span among the
/// spans of their members (start first, then end), and not at all when no
/// member matches.
pub proof fn lemma_any_least_span(alts: Seq<ReadUntil>, b: Seq<char>, eof: bool)
    ensures
        any_spec(alts, b, eof) is None <==> (forall|i: int| 0 <= i < alts.len() ==> (#[trigger] find_spec(alts[i], b, eof)) is None),
        any_spec(alts, b, eof) matches Some((s, e)) ==> {
            &&& exists|i: int| 0 <= i < alts.len() && find_spec(alts[i], b, eof) == Some((s, e))
            &&& forall|j: int| 0 <= j < alts.len() ==> no_later_than((s, e), #[trigger] find_spec(alts[j], b, eof))
        },
    decreases alts.len(),
{
    if alts.len() > 0 {
        let init = alts.drop_last();
        let last = alts.len() - 1;
        lemma_any_least_span(init, b, eof);
        assert forall|i: int| 0 <= i < init.len() implies alts[i] == init[i] by {}
        assert(alts.last() == alts[last]);
        let a = any_spec(init, b, eof);
        let c = find_spec(alts.last(), b, eof);
        if a is None && c is None {
            assert forall|i: int| 0 <= i < alts.len() implies (#[trigger] find_spec(alts[i], b, eof)) is None by {
                if i < last {
                    assert(find_spec(init[i], b, eof) is None);
                }
            }
        }
        if let Some((s, e)) = any_spec(alts, b, eof) {
            if any_spec(alts, b, eof) == c {
                assert(find_spec(alts[last], b, eof) == Some((s, e)));
            } else {
                let i = choose|i: int| 0 <= i < init.len() && find_spec(init[i], b, eof) == Some((s, e));
                assert(find_spec(alts[i], b, eof) == Some((s, e)));
            }
            assert forall|j: int| 0 <= j < alts.len() implies no_later_than((s, e), #[trigger] find_spec(alts[j], b, eof)) by {
                if j < last {
                    assert(find_spec(init[j], b, eof) == find_spec(alts[j], b, eof));
                }
            }
        }
    }
}

} // verus!
