use vstd::prelude::*;
use std::collections::VecDeque;
use crate::distance::{is_match, word_matches};

verus! {

/// Whether an item of the source is handed on: a word when it is a match, a
/// read failure always.
pub open spec fn passes<E>(query: Seq<char>, max: nat, item: Result<String, E>) -> bool {
    match item {
        Ok(w) => is_match(query, max, w),
        Err(_) => true,
    }
}

/// What the sequential filter yields from `items`, in order: every read
/// failure, and every word within `max` of `query`.
pub open spec fn serial_output<E>(items: Seq<Result<String, E>>, query: Seq<char>, max: nat) -> Seq<
    Result<String, E>,
>
    decreases items.len(),
{
    if items.len() == 0 {
        Seq::empty()
    } else {
        let rest = serial_output(items.subrange(1, items.len() as int), query, max);
        if passes(query, max, items[0]) {
            seq![items[0]] + rest
        } else {
            rest
        }
    }
}

/// Lazily filters a source of words, one item at a time.
pub struct FilteredWords<E> {
    words: VecDeque<Result<String, E>>,
    search_word: String,
    max_distance: usize,
}

impl<E> FilteredWords<E> {
    /// The items of the source that have not been pulled yet.
    pub closed spec fn source(&self) -> Seq<Result<String, E>> {
        self.words@
    }

    /// The search word.
    pub closed spec fn query(&self) -> Seq<char> {
        self.search_word@
    }

    /// The largest edit distance at which a word is kept.
    pub closed spec fn max(&self) -> nat {
        self.max_distance as nat
    }

    /// What is left to yield.
    pub open spec fn output(&self) -> Seq<Result<String, E>> {
        serial_output(self.source(), self.query(), self.max())
    }

    /// Pulls items from the source until one passes, and yields it; `None`
    /// once the source is exhausted.
    pub fn next(&mut self) -> (r: Option<Result<String, E>>)
        ensures
            final(self).query() == old(self).query(),
            final(self).max() == old(self).max(),
            final(self).source().len() <= old(self).source().len(),
            final(self).source() == old(self).source().subrange(
                old(self).source().len() - final(self).source().len(),
                old(self).source().len() as int,
            ),
            old(self).output() == match r {
                None => Seq::empty(),
                Some(item) => seq![item] + final(self).output(),
            },
            r is None ==> final(self).source().len() == 0,
            old(self).source().len() > 0 && old(self).source()[0] is Ok && old(self).source()[0]->Ok_0@
                == old(self).query() ==> r == Some(old(self).source()[0]),
    {
        loop
            invariant
                self.query() == old(self).query(),
                self.max() == old(self).max(),
                self.source().len() <= old(self).source().len(),
                self.source() == old(self).source().subrange(
                    old(self).source().len() - self.source().len(),
                    old(self).source().len() as int,
                ),
                self.output() == old(self).output(),
                self.source().len() < old(self).source().len() ==> !(old(self).source()[0] is Ok
                    && old(self).source()[0]->Ok_0@ == old(self).query()),
            decreases self.words@.len(),
        {
            let ghost before = self.words@;
            match self.words.pop_front() {
                None => {
                    return None;
                },
                Some(Ok(w)) => {
                    assert(before.subrange(1, before.len() as int) =~= self.words@);
                    if word_matches(self.search_word.as_str(), self.max_distance, &w) {
                        return Some(Ok(w));
                    }
                },
                Some(Err(e)) => {
                    assert(before.subrange(1, before.len() as int) =~= self.words@);
                    return Some(Err(e));
                },
            }
        }
    }
}

/// Moves the items of `words` into a queue, keeping their order.
pub(crate) fn into_queue<T>(words: Vec<T>) -> (r: VecDeque<T>)
    ensures
        r@ == words@,
{
    let mut words = words;
    let ghost all = words@;
    let mut queue: VecDeque<T> = VecDeque::new();
    while words.len() > 0
        invariant
            words@ + queue@ == all,
        decreases words@.len(),
    {
        let item = words.pop().unwrap();
        queue.push_front(item);
    }
    assert(queue@ =~= all);
    queue
}

/// Starts filtering `words` for those within `max_distance` of `search_word`.
/// Nothing is pulled from the source until `next` is called.
pub fn filter_words<E>(words: Vec<Result<String, E>>, search_word: &str, max_distance: usize) -> (r:
    FilteredWords<E>)
    ensures
        r.source() == words@,
        r.query() == search_word@,
        r.max() == max_distance as nat,
{
    FilteredWords { words: into_queue(words), search_word: search_word.to_owned(), max_distance }
}


/// The sequential output of two sources one after the other is the output of
/// the first followed by the output of the second.
pub proof fn lemma_serial_concat<E>(
    a: Seq<Result<String, E>>,
    b: Seq<Result<String, E>>,
    query: Seq<char>,
    max: nat,
)
    ensures
        serial_output(a + b, query, max) == serial_output(a, query, max) + serial_output(
            b,
            query,
            max,
        ),
    decreases a.len(),
{
    if a.len() == 0 {
        assert(a + b =~= b);
        assert(serial_output(a, query, max) + serial_output(b, query, max) =~= serial_output(
            b,
            query,
            max,
        ));
    } else {
        assert((a + b).subrange(1, (a + b).len() as int) =~= a.subrange(1, a.len() as int) + b);
        lemma_serial_concat(a.subrange(1, a.len() as int), b, query, max);
        assert((a + b)[0] == a[0]);
        if passes(query, max, a[0]) {
            assert(serial_output(a + b, query, max) =~= serial_output(a, query, max)
                + serial_output(b, query, max));
        }
    }
}

/// A read failure at position `k` of the source comes out of the sequential
/// filter right after the matches of the items before it, and before the
/// output of the items after it: nothing is skipped or reordered around it.
pub proof fn lemma_failure_surfaces<E>(items: Seq<Result<String, E>>, query: Seq<char>, max: nat, k: int)
    requires
        0 <= k < items.len(),
        items[k] is Err,
    ensures
        serial_output(items, query, max) == serial_output(items.subrange(0, k), query, max) + seq![
            items[k],
        ] + serial_output(items.subrange(k + 1, items.len() as int), query, max),
{
    let head = items.subrange(0, k);
    let one = seq![items[k]];
    let tail = items.subrange(k + 1, items.len() as int);
    assert(items =~= head + (one + tail));
    lemma_serial_concat(head, one + tail, query, max);
    assert((one + tail).subrange(1, (one + tail).len() as int) =~= tail);
    assert(serial_output(one + tail, query, max) =~= one + serial_output(tail, query, max));
    assert(serial_output(head, query, max) + (one + serial_output(tail, query, max)) =~= serial_output(
        head,
        query,
        max,
    ) + one + serial_output(tail, query, max));
}

} // verus!
