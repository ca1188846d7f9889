//! A cursor with two slots of lookahead over a borrowed sequence.
//!
//! The cursor hands out the items of a sequence one at a time. Before an item
//! is consumed it can be peeked at, up to two items ahead, and the most recent
//! peek can be replayed once.

use vstd::prelude::*;

verus! {

/// The lookahead buffer: the items that were pulled from the sequence by a
/// peek and are not consumed yet, oldest first.
#[derive(Debug)]
pub enum Lookahead<T> {
    Empty,
    OnePeeked(T),
    TwoPeeked(T, T),
}

impl<T> Lookahead<T> {
    /// The buffered items, oldest first. There are never more than two.
    pub open spec fn items(self) -> Seq<T> {
        match self {
            Lookahead::Empty => Seq::empty(),
            Lookahead::OnePeeked(a) => seq![a],
            Lookahead::TwoPeeked(a, b) => seq![a, b],
        }
    }

    /// The number of buffered items: 0, 1 or 2.
    pub fn stored(&self) -> (n: usize)
        ensures
            n == self.items().len(),
            n <= 2,
    {
        match self {
            Lookahead::Empty => 0,
            Lookahead::OnePeeked(_) => 1,
            Lookahead::TwoPeeked(_, _) => 2,
        }
    }
}

/// What a cursor is, as a mathematical value.
pub struct CursorState<T> {
    /// The items that a peek has pulled and that are not consumed yet.
    pub buffered: Seq<T>,
    /// The items that are still in the underlying sequence.
    pub pending: Seq<T>,
    /// Whether the next peek replays the front of the buffer.
    pub replay: bool,
}

impl<T> CursorState<T> {
    /// The lookahead never holds more than two items.
    pub open spec fn wf(self) -> bool {
        self.buffered.len() <= 2
    }

    /// Everything that consumption will still yield, in order.
    pub open spec fn upcoming(self) -> Seq<T> {
        self.buffered + self.pending
    }

    /// The state after the replay flag has been raised.
    pub open spec fn with_replay(self) -> CursorState<T> {
        CursorState { replay: true, ..self }
    }

    /// What a peek returns in this state.
    pub open spec fn peeked(self) -> Option<T> {
        if self.replay && self.buffered.len() > 0 {
            Some(self.buffered[0])
        } else if self.buffered.len() >= 2 || self.pending.len() == 0 {
            None
        } else {
            Some(self.pending[0])
        }
    }

    /// The state that a peek leaves behind.
    pub open spec fn after_peek(self) -> CursorState<T> {
        if self.replay && self.buffered.len() > 0 {
            CursorState { replay: false, ..self }
        } else if self.buffered.len() >= 2 || self.pending.len() == 0 {
            CursorState { replay: false, ..self }
        } else {
            CursorState {
                buffered: self.buffered.push(self.pending[0]),
                pending: self.pending.skip(1),
                replay: false,
            }
        }
    }

    /// What consuming one item returns in this state.
    pub open spec fn consumed(self) -> Option<T> {
        if self.buffered.len() > 0 {
            Some(self.buffered[0])
        } else if self.pending.len() > 0 {
            Some(self.pending[0])
        } else {
            None
        }
    }

    /// The state that consuming one item leaves behind.
    pub open spec fn after_next(self) -> CursorState<T> {
        if self.buffered.len() > 0 {
            CursorState { buffered: self.buffered.skip(1), ..self }
        } else if self.pending.len() > 0 {
            CursorState { pending: self.pending.skip(1), ..self }
        } else {
            self
        }
    }
}

/// A cursor over a borrowed sequence with a lookahead of at most two items.
pub struct DoublePeek<'a, T> {
    rest: &'a [T],
    cache: Lookahead<T>,
    unpeek: bool,
}

impl<'a, T: Copy> View for DoublePeek<'a, T> {
    type V = CursorState<T>;

    closed spec fn view(&self) -> CursorState<T> {
        CursorState { buffered: self.cache.items(), pending: self.rest@, replay: self.unpeek }
    }
}

impl<'a, T: Copy> DoublePeek<'a, T> {
    /// A cursor at the start of `items`, with nothing buffered.
    pub fn new(items: &'a [T]) -> (cursor: Self)
        ensures
            cursor@ == (CursorState { buffered: Seq::empty(), pending: items@, replay: false }),
            cursor@.wf(),
    {
        DoublePeek { rest: items, cache: Lookahead::Empty, unpeek: false }
    }

    /// The number of items in the lookahead buffer.
    pub fn stored(&self) -> (n: usize)
        ensures
            n == self@.buffered.len(),
            self@.wf(),
    {
        self.cache.stored()
    }

    /// Raises the replay flag: the next peek returns the front of the
    /// lookahead buffer again, where there is one, instead of advancing.
    pub fn unpeek(&mut self)
        ensures
            final(self)@ == old(self)@.with_replay(),
            final(self)@.wf(),
    {
        self.unpeek = true;
    }

    /// Takes the next item out of the underlying sequence.
    fn pull(&mut self) -> (item: Option<T>)
        ensures
            final(self).cache == old(self).cache,
            final(self).unpeek == old(self).unpeek,
            match item {
                Some(v) => old(self).rest@.len() > 0 && v == old(self).rest@[0]
                    && final(self).rest@ == old(self).rest@.skip(1),
                None => old(self).rest@.len() == 0 && final(self).rest@ == old(self).rest@,
            },
    {
        let rest = self.rest;
        if rest.len() == 0 {
            None
        } else {
            let item = rest[0];
            self.rest = &rest[1..rest.len()];
            Some(item)
        }
    }

    /// Looks at an upcoming item without consuming it.
    ///
    /// With the replay flag up and an item buffered, the front of the buffer
    /// is returned again. Otherwise the next item of the sequence moves into
    /// the buffer and is returned; with two items buffered already, or the
    /// sequence at its end, nothing is returned. In every case the flag comes
    /// down.
    pub fn peek(&mut self) -> (item: Option<T>)
        ensures
            item == old(self)@.peeked(),
            final(self)@ == old(self)@.after_peek(),
            final(self)@.wf(),
    {
        let replay = self.unpeek;
        self.unpeek = false;
        let item = match self.cache {
            Lookahead::Empty => {
                match self.pull() {
                    Some(v) => {
                        self.cache = Lookahead::OnePeeked(v);
                        Some(v)
                    },
                    None => None,
                }
            },
            Lookahead::OnePeeked(a) => {
                if replay {
                    Some(a)
                } else {
                    match self.pull() {
                        Some(v) => {
                            self.cache = Lookahead::TwoPeeked(a, v);
                            Some(v)
                        },
                        None => None,
                    }
                }
            },
            Lookahead::TwoPeeked(a, _) => {
                if replay {
                    Some(a)
                } else {
                    None
                }
            },
        };
        proof {
            assert(self@.buffered =~= old(self)@.after_peek().buffered);
            assert(self@.pending =~= old(self)@.after_peek().pending);
        }
        item
    }

    /// Consumes one item: the front of the lookahead buffer where it holds
    /// one, else the next item of the sequence.
    pub fn next(&mut self) -> (item: Option<T>)
        ensures
            item == old(self)@.consumed(),
            final(self)@ == old(self)@.after_next(),
            final(self)@.wf(),
    {
        let item = match self.cache {
            Lookahead::Empty => self.pull(),
            Lookahead::OnePeeked(a) => {
                self.cache = Lookahead::Empty;
                Some(a)
            },
            Lookahead::TwoPeeked(a, b) => {
                self.cache = Lookahead::OnePeeked(b);
                Some(a)
            },
        };
        proof {
            assert(self@.buffered =~= old(self)@.after_next().buffered);
            assert(self@.pending =~= old(self)@.after_next().pending);
        }
        item
    }
}

/// A peek leaves what consumption will yield as it is, keeps the lookahead
/// within two items, and takes the replay flag down.
pub proof fn lemma_peek_keeps_upcoming<T>(c: CursorState<T>)
    requires
        c.wf(),
    ensures
        c.after_peek().wf(),
        c.after_peek().upcoming() == c.upcoming(),
        !c.after_peek().replay,
        c.peeked() matches Some(item) ==> c.upcoming().contains(item),
{
    let d = c.after_peek();
    assert(d.upcoming() =~= c.upcoming());
    if c.replay && c.buffered.len() > 0 {
        assert(c.upcoming()[0] == c.buffered[0]);
    } else if c.buffered.len() < 2 && c.pending.len() > 0 {
        assert(c.upcoming()[c.buffered.len() as int] == c.pending[0]);
    }
}

/// Consumption hands out the upcoming items in their order: it takes the
/// first of them, buffered or not, and leaves at most one item buffered.
pub proof fn lemma_next_takes_front<T>(c: CursorState<T>)
    requires
        c.wf(),
    ensures
        c.after_next().wf(),
        c.after_next().buffered.len() <= 1,
        c.upcoming().len() == 0 ==> c.consumed() is None && c.after_next() == c,
        c.upcoming().len() > 0 ==> c.consumed() == Some(c.upcoming()[0])
            && c.after_next().upcoming() == c.upcoming().skip(1),
{
    if c.upcoming().len() > 0 {
        assert(c.after_next().upcoming() =~= c.upcoming().skip(1));
    }
}

/// The lookahead is bounded: whatever the state, after two peeks a third
/// one returns nothing.
pub proof fn lemma_third_peek_is_empty<T>(c: CursorState<T>)
    requires
        c.wf(),
    ensures
        c.after_peek().after_peek().peeked() is None,
{
}

} // verus!
