use vstd::prelude::*;
use crate::document::{document_events, parse_failure, xml_events, xml_failure_message, xml_failure_position};
use crate::events::{
    end_advance, events_view, failure_matches, is_terminal, read_view, Advance, EventView, ReadErrorKind, StreamEnd,
    XmlEvent,
};

verus! {

/// The state a step function reaches from `s` over a run of inputs.
pub open spec fn run_steps<S, X, E>(s: S, xs: Seq<X>, step: spec_fn(S, X) -> (S, Advance<E>)) -> S
    decreases xs.len(),
{
    if xs.len() == 0 {
        s
    } else {
        step(run_steps(s, xs.drop_last(), step), xs.last()).0
    }
}

/// Whether every input of a run is taken in the state the run has reached
/// before it.
pub open spec fn steps_accepted<S, X, E>(
    s: S,
    xs: Seq<X>,
    step: spec_fn(S, X) -> (S, Advance<E>),
    ok: spec_fn(S, X) -> bool,
) -> bool {
    forall|i: int| 0 <= i < xs.len() ==> #[trigger] ok(run_steps(s, xs.take(i), step), xs[i])
}

/// What a step function hands out over a run from `s`: the items it
/// yields, in order, up to the first end or failure, and that last outcome
/// (`Continue` if the run is over first); `None` if it meets an input it
/// cannot take before then.
pub open spec fn feed_steps<S, X, E>(
    s: S,
    xs: Seq<X>,
    step: spec_fn(S, X) -> (S, Advance<E>),
    ok: spec_fn(S, X) -> bool,
) -> Option<(Seq<E>, Advance<()>)>
    decreases xs.len(),
{
    if xs.len() == 0 {
        Some((Seq::empty(), Advance::Continue))
    } else if !ok(s, xs[0]) {
        None
    } else {
        let (t, a) = step(s, xs[0]);
        match a {
            Advance::End => Some((Seq::empty(), Advance::End)),
            Advance::Error => Some((Seq::empty(), Advance::Error)),
            Advance::Continue => feed_steps(t, xs.drop_first(), step, ok),
            Advance::Yield(e) => match feed_steps(t, xs.drop_first(), step, ok) {
                Some((es, last)) => Some((seq![e] + es, last)),
                None => None,
            },
        }
    }
}

/// Puts items before what a later part of a feed hands out.
pub open spec fn prepend_items<E>(es: Seq<E>, rest: Option<(Seq<E>, Advance<()>)>) -> Option<(Seq<E>, Advance<()>)> {
    match rest {
        Some((more, last)) => Some((es + more, last)),
        None => None,
    }
}

/// A run whose inputs are all taken has every prefix taken, and its last
/// input is taken where the prefix leads.
pub proof fn lemma_steps_accepted_prefix<S, X, E>(
    s: S,
    xs: Seq<X>,
    step: spec_fn(S, X) -> (S, Advance<E>),
    ok: spec_fn(S, X) -> bool,
)
    requires
        xs.len() > 0,
        steps_accepted(s, xs, step, ok),
    ensures
        steps_accepted(s, xs.drop_last(), step, ok),
        ok(run_steps(s, xs.drop_last(), step), xs.last()),
{
    let n = xs.len() - 1;
    let xs0 = xs.drop_last();
    assert forall|i: int| 0 <= i < xs0.len() implies #[trigger] ok(run_steps(s, xs0.take(i), step), xs0[i]) by {
        assert(xs0.take(i) == xs.take(i));
        assert(ok(run_steps(s, xs.take(i), step), xs[i]));
    }
    assert(xs.take(n) == xs0);
    assert(ok(run_steps(s, xs.take(n), step), xs[n]));
}

/// A run whose prefix is taken and whose last input is taken is taken.
pub proof fn lemma_steps_accepted_extend<S, X, E>(
    s: S,
    xs: Seq<X>,
    step: spec_fn(S, X) -> (S, Advance<E>),
    ok: spec_fn(S, X) -> bool,
)
    requires
        xs.len() > 0,
        steps_accepted(s, xs.drop_last(), step, ok),
        ok(run_steps(s, xs.drop_last(), step), xs.last()),
    ensures
        steps_accepted(s, xs, step, ok),
{
    let n = xs.len() - 1;
    let xs0 = xs.drop_last();
    assert forall|i: int| 0 <= i < xs.len() implies #[trigger] ok(run_steps(s, xs.take(i), step), xs[i]) by {
        if i < n {
            assert(xs.take(i) == xs0.take(i));
            assert(ok(run_steps(s, xs0.take(i), step), xs0[i]));
        } else {
            assert(xs.take(i) == xs0);
        }
    }
}

/// A run goes through its first input, then through the rest.
pub proof fn lemma_run_steps_front<S, X, E>(s: S, xs: Seq<X>, step: spec_fn(S, X) -> (S, Advance<E>))
    requires
        xs.len() > 0,
    ensures
        run_steps(s, xs, step) == run_steps(step(s, xs[0]).0, xs.drop_first(), step),
    decreases xs.len(),
{
    let t = step(s, xs[0]).0;
    if xs.len() == 1 {
        assert(xs.drop_last().len() == 0);
        assert(xs.drop_first().len() == 0);
        assert(xs.last() == xs[0]);
        assert(run_steps(s, xs.drop_last(), step) == s);
        assert(run_steps(t, xs.drop_first(), step) == t);
    } else {
        let front = xs.drop_last();
        let rest = xs.drop_first();
        lemma_run_steps_front(s, front, step);
        assert(front[0] == xs[0]);
        assert(front.drop_first() == rest.drop_last());
        assert(rest.last() == xs.last());
        assert(run_steps(t, rest, step) == step(run_steps(t, rest.drop_last(), step), rest.last()).0);
        assert(run_steps(s, xs, step) == step(run_steps(s, front, step), xs.last()).0);
    }
}

/// A run whose inputs are all taken is handed out in full.
pub proof fn lemma_feed_steps_defined<S, X, E>(
    s: S,
    xs: Seq<X>,
    step: spec_fn(S, X) -> (S, Advance<E>),
    ok: spec_fn(S, X) -> bool,
)
    requires
        steps_accepted(s, xs, step, ok),
    ensures
        feed_steps(s, xs, step, ok) is Some,
    decreases xs.len(),
{
    if xs.len() > 0 {
        assert(xs.take(0).len() == 0);
        assert(ok(run_steps(s, xs.take(0), step), xs[0]));
        let t = step(s, xs[0]).0;
        let rest = xs.drop_first();
        assert forall|j: int| 0 <= j < rest.len() implies #[trigger] ok(run_steps(t, rest.take(j), step), rest[j]) by {
            assert(ok(run_steps(s, xs.take(j + 1), step), xs[j + 1]));
            lemma_run_steps_front(s, xs.take(j + 1), step);
            assert(xs.take(j + 1).drop_first() == rest.take(j));
        }
        lemma_feed_steps_defined(t, rest, step, ok);
    }
}

/// A feed ends on `End`, `Error` or `Continue`, never on a yield.
pub proof fn lemma_feed_steps_last<S, X, E>(
    s: S,
    xs: Seq<X>,
    step: spec_fn(S, X) -> (S, Advance<E>),
    ok: spec_fn(S, X) -> bool,
)
    ensures
        feed_steps(s, xs, step, ok) matches Some((_, last)) ==> !(last is Yield),
    decreases xs.len(),
{
    if xs.len() > 0 {
        lemma_feed_steps_last(step(s, xs[0]).0, xs.drop_first(), step, ok);
    }
}

/// A feed that ends in a failure met an input on which the step function
/// fails.
pub proof fn lemma_feed_steps_error<S, X, E>(
    s: S,
    xs: Seq<X>,
    step: spec_fn(S, X) -> (S, Advance<E>),
    ok: spec_fn(S, X) -> bool,
    fails: spec_fn(X) -> bool,
)
    requires
        forall|t: S, x: X| (#[trigger] step(t, x)).1 is Error ==> fails(x),
        feed_steps(s, xs, step, ok) matches Some((_, Advance::Error)),
    ensures
        exists|i: int| 0 <= i < xs.len() && #[trigger] fails(xs[i]),
    decreases xs.len(),
{
    let (t, a) = step(s, xs[0]);
    if a is Error {
        assert(fails(xs[0]));
    } else {
        lemma_feed_steps_error(t, xs.drop_first(), step, ok, fails);
        let i = choose|i: int| 0 <= i < xs.drop_first().len() && #[trigger] fails(xs.drop_first()[i]);
        assert(fails(xs[i + 1]));
    }
}


/// A reader that parser results drive, one at a time, and that hands out
/// entries; its behaviour is a step function over its view.
pub trait EntryReader: View + Sized {
    /// What the reader hands out.
    type Entry: View;

    /// What the step function takes for one parser result.
    type Input;

    /// The input for one parser result.
    spec fn input(ev: Result<EventView, ReadErrorKind>) -> Self::Input;

    /// The view of a fresh reader.
    spec fn initial() -> Self::V;

    /// One step of the reader.
    spec fn next() -> spec_fn(Self::V, Self::Input) -> (Self::V, Advance<<Self::Entry as View>::V>);

    /// Which inputs the reader takes in which state.
    spec fn takes() -> spec_fn(Self::V, Self::Input) -> bool;

    /// Whether an input stands for a failed parser result.
    spec fn failed(x: Self::Input) -> bool;

    /// A fresh reader.
    fn fresh() -> (r: Self)
        ensures
            r@ == Self::initial(),
    ;

    /// Feeds one parser result to the reader if it can take it; gives
    /// `None`, with the reader unchanged, where it cannot.
    fn feed(&mut self, ev: Result<XmlEvent, ReadErrorKind>) -> (r: Option<Advance<Self::Entry>>)
        ensures
            (Self::takes())(old(self)@, Self::input(read_view(ev))) ==> (r matches Some(a) && (final(self)@, a@)
                == (Self::next())(old(self)@, Self::input(read_view(ev)))),
            !(Self::takes())(old(self)@, Self::input(read_view(ev))) ==> (r is None && final(self)@ == old(self)@),
    ;

    /// The reader fails only on a failed input.
    proof fn lemma_error_needs_failure(s: Self::V, x: Self::Input)
        ensures
            (Self::next())(s, x).1 is Error ==> Self::failed(x),
    ;

    /// Only a failed parser result gives a failed input.
    proof fn lemma_failed_input(ev: Result<EventView, ReadErrorKind>)
        ensures
            Self::failed(Self::input(ev)) ==> ev is Err,
    ;
}

/// The inputs of a reader for a list of parser results.
pub open spec fn inputs<R: EntryReader>(evs: Seq<Result<EventView, ReadErrorKind>>) -> Seq<R::Input> {
    evs.map_values(|e: Result<EventView, ReadErrorKind>| R::input(e))
}

/// What a fresh reader hands out when fed a list of parser results.
pub open spec fn read_feed<R: EntryReader>(evs: Seq<Result<EventView, ReadErrorKind>>) -> Option<
    (Seq<<R::Entry as View>::V>, Advance<()>),
> {
    feed_steps(R::initial(), inputs::<R>(evs), R::next(), R::takes())
}

/// The views of a list of entries.
pub open spec fn entry_views<E: View>(v: Seq<E>) -> Seq<E::V> {
    v.map_values(|e: E| e@)
}

/// Feeds a list of parser results to a fresh reader: the entries it hands
/// out up to the first end or failure, and that last outcome; `None` where
/// it meets a result it cannot take.
pub fn entries_of<R: EntryReader>(events: Vec<Result<XmlEvent, ReadErrorKind>>) -> (r: Option<
    (Vec<R::Entry>, Advance<()>),
>)
    ensures
        match r {
            Some((es, last)) => read_feed::<R>(events_view(events@)) == Some((entry_views(es@), last)),
            None => read_feed::<R>(events_view(events@)) is None,
        },
{
    let ghost xs = inputs::<R>(events_view(events@));
    let mut state = R::fresh();
    let mut out: Vec<R::Entry> = Vec::new();
    let ghost raw = events@;
    proof {
        assert(xs.skip(0) == xs);
        if let Some((more, _)) = feed_steps(state@, xs, R::next(), R::takes()) {
            assert(entry_views(out@) + more == more);
        }
    }
    for ev in it: events.into_iter()
        invariant
            it.seq() == raw,
            xs == inputs::<R>(events_view(raw)),
            prepend_items(entry_views(out@), feed_steps(state@, xs.skip(it.index() as int), R::next(), R::takes()))
                == read_feed::<R>(events_view(raw)),
    {
        let ghost i = it.index() as int;
        proof {
            assert(xs.skip(i)[0] == R::input(read_view(ev)));
            assert(xs.skip(i).drop_first() == xs.skip(i + 1));
        }
        match state.feed(ev) {
            None => {
                return None;
            },
            Some(Advance::Continue) => {},
            Some(Advance::Yield(e)) => {
                let ghost before = entry_views(out@);
                out.push(e);
                proof {
                    assert(entry_views(out@) == before.push(e@));
                    if let Some((more, _)) = feed_steps(state@, xs.skip(i + 1), R::next(), R::takes()) {
                        assert(before + (seq![e@] + more) == before.push(e@) + more);
                    }
                }
            },
            Some(Advance::End) => {
                assert(entry_views(out@) + Seq::<<R::Entry as View>::V>::empty() == entry_views(out@));
                return Some((out, Advance::End));
            },
            Some(Advance::Error) => {
                assert(entry_views(out@) + Seq::<<R::Entry as View>::V>::empty() == entry_views(out@));
                return Some((out, Advance::Error));
            },
        }
    }
    assert(xs.skip(xs.len() as int).len() == 0);
    assert(entry_views(out@) + Seq::<<R::Entry as View>::V>::empty() == entry_views(out@));
    Some((out, Advance::Continue))
}

/// Reads the entries of a document: parses its bytes and feeds the results
/// to a fresh reader. Gives the entries handed out before the stream ends
/// and how it ends (with the parser's error, its position and its message
/// where it fails); `None` where the reader meets a result it cannot take.
pub fn read_entries<R: EntryReader>(doc: &[u8]) -> (r: Option<(Vec<R::Entry>, StreamEnd)>)
    ensures
        match r {
            Some((es, end)) => read_feed::<R>(xml_events(doc@)) == Some((entry_views(es@), end_advance(end)))
                && failure_matches(
                end,
                xml_failure_position(doc@).0,
                xml_failure_position(doc@).1,
                xml_failure_message(doc@),
            ),
            None => read_feed::<R>(xml_events(doc@)) is None,
        },
{
    let events = document_events(doc);
    let ghost raw = events@;
    let ghost evs = events_view(events@);
    match entries_of::<R>(events) {
        None => None,
        Some((es, Advance::Error)) => match parse_failure(doc) {
            Some((error, row, column, message)) => Some((es, StreamEnd::Failed { error, row, column, message })),
            None => {
                proof {
                    let xs = inputs::<R>(evs);
                    let fails = |x: R::Input| R::failed(x);
                    assert forall|t: R::V, x: R::Input| (#[trigger] (R::next())(t, x)).1 is Error implies fails(x) by {
                        R::lemma_error_needs_failure(t, x);
                    }
                    lemma_feed_steps_error(R::initial(), xs, R::next(), R::takes(), fails);
                    let i = choose|i: int| 0 <= i < xs.len() && #[trigger] fails(xs[i]);
                    R::lemma_failed_input(evs[i]);
                    assert(evs[i] == read_view(raw[i]));
                    if i < evs.len() - 1 {
                        assert(is_terminal(evs[i]));
                    }
                }
                Some((es, StreamEnd::Endless))
            },
        },
        Some((es, Advance::End)) => Some((es, StreamEnd::Finished)),
        Some((es, _)) => {
            proof {
                lemma_feed_steps_last(R::initial(), inputs::<R>(evs), R::next(), R::takes());
            }
            Some((es, StreamEnd::Endless))
        },
    }
}

}
