use vstd::prelude::*;
use std::collections::VecDeque;
use vstd::multiset::Multiset;
use vstd::slice::slice_subrange;
use crate::distance::{is_match, word_matches};
use crate::lfilter::into_queue;

verus! {

/// The words of `tokens` within `max` of `query`, in order.
pub open spec fn matching_words(tokens: Seq<String>, query: Seq<char>, max: nat) -> Seq<String>
    decreases tokens.len(),
{
    if tokens.len() == 0 {
        Seq::empty()
    } else {
        let rest = matching_words(tokens.subrange(1, tokens.len() as int), query, max);
        if is_match(query, max, tokens[0]) {
            seq![tokens[0]] + rest
        } else {
            rest
        }
    }
}

/// Whether every item of the source is a word.
pub open spec fn all_read<E>(items: Seq<Result<String, E>>) -> bool {
    forall|i: int| 0 <= i < items.len() ==> (#[trigger] items[i]) is Ok
}

/// The words of a source that holds no read failure.
pub open spec fn tokens_of<E>(items: Seq<Result<String, E>>) -> Seq<String> {
    items.map_values(|item: Result<String, E>| item->Ok_0)
}

/// Whether `e` is the first read failure of the source.
pub open spec fn first_failure<E>(items: Seq<Result<String, E>>, e: E) -> bool {
    exists|k: int|
        0 <= k < items.len() && items[k] == Err::<String, E>(e) && all_read(
            #[trigger] items.subrange(0, k),
        )
}

/// The number of words in each chunk when `n` words are shared among
/// `workers` workers: `n / workers`, rounded up.
pub open spec fn chunk_len(n: nat, workers: nat) -> nat {
    if n % workers == 0 {
        n / workers
    } else {
        n / workers + 1
    }
}

/// The bounds `(start, end)` of chunk `i`, for chunks of `size` words out of `n`.
pub open spec fn chunk_at(n: nat, size: nat, i: int) -> (int, int) {
    (i * size, if (i + 1) * size < n { (i + 1) * size } else { n as int })
}

/// The matches of the first `k` chunks, one chunk after the other.
pub open spec fn chunked_matches(tokens: Seq<String>, query: Seq<char>, max: nat, size: nat, k: nat) -> Seq<
    String,
>
    decreases k,
{
    if k == 0 {
        Seq::empty()
    } else {
        let b = chunk_at(tokens.len(), size, k - 1);
        chunked_matches(tokens, query, max, size, (k - 1) as nat) + matching_words(
            tokens.subrange(b.0, b.1),
            query,
            max,
        )
    }
}

/// The matches of two sources one after the other are the matches of the two
/// sources joined.
pub proof fn lemma_matches_concat(a: Seq<String>, b: Seq<String>, query: Seq<char>, max: nat)
    ensures
        matching_words(a + b, query, max) == matching_words(a, query, max) + matching_words(b, query, max),
    decreases a.len(),
{
    if a.len() == 0 {
        assert(a + b =~= b);
        assert(matching_words(a, query, max) + matching_words(b, query, max) =~= matching_words(b, query, max));
    } else {
        assert((a + b).subrange(1, (a + b).len() as int) =~= a.subrange(1, a.len() as int) + b);
        lemma_matches_concat(a.subrange(1, a.len() as int), b, query, max);
        assert((a + b)[0] == a[0]);
        if is_match(query, max, a[0]) {
            assert(matching_words(a + b, query, max) =~= matching_words(a, query, max) + matching_words(b, query, max));
        }
    }
}

/// `n` is at most `workers` chunks of `chunk_len(n, workers)` words.
proof fn lemma_chunks_reach_end(n: nat, workers: nat)
    requires
        workers > 0,
    ensures
        workers * chunk_len(n, workers) >= n,
        chunk_len(n, workers) <= n,
{
    vstd::arithmetic::div_mod::lemma_fundamental_div_mod(n as int, workers as int);
    let q = n / workers;
    let m = n % workers;
    assert(n == workers * q + m);
    if m != 0 {
        assert(workers * (q + 1) == workers * q + workers) by (nonlinear_arith);
        assert(q + 1 <= n) by (nonlinear_arith)
            requires
                n == workers * q + m,
                0 < m < workers,
                q >= 0,
        ;
    } else {
        assert(q <= n) by (nonlinear_arith)
            requires
                n == workers * q + m,
                workers >= 1,
                q >= 0,
                m >= 0,
        ;
    }
}

/// Reads every item of the source into a vector of words, or returns the
/// first read failure.
pub fn to_vec<E>(words: Vec<Result<String, E>>) -> (r: Result<Vec<String>, E>)
    ensures
        r is Ok <==> all_read(words@),
        r is Ok ==> r->Ok_0@ == tokens_of(words@),
        r is Err ==> first_failure(words@, r->Err_0),
{
    let ghost all = words@;
    let mut queue = into_queue(words);
    let mut lines: Vec<String> = Vec::new();
    let ghost mut k: int = 0;
    loop
        invariant
            all == words@,
            0 <= k <= all.len(),
            queue@ == all.subrange(k, all.len() as int),
            all_read(all.subrange(0, k)),
            lines@ == tokens_of(all.subrange(0, k)),
        decreases all.len() - k,
    {
        match queue.pop_front() {
            None => {
                assert(k == all.len());
                assert(all.subrange(0, k) =~= all);
                assert(all_read(all));
                assert(lines@ == tokens_of(all));
                return Ok(lines);
            },
            Some(Ok(w)) => {
                proof {
                    assert(all[k] == Ok::<String, E>(w));
                    assert(all.subrange(0, k + 1) =~= all.subrange(0, k).push(all[k]));
                    k = k + 1;
                }
                lines.push(w);
                assert(lines@ =~= tokens_of(all.subrange(0, k)));
            },
            Some(Err(e)) => {
                assert(all[k] == Err::<String, E>(e));
                assert(all_read(all.subrange(0, k)));
                assert(first_failure(all, e));
                assert(!all_read(all));
                return Err(e);
            },
        }
    }
}

/// The number of words per chunk when `n` words are shared among `workers`
/// workers.
pub fn chunk_size(n: usize, workers: usize) -> (r: usize)
    requires
        workers > 0,
    ensures
        r as nat == chunk_len(n as nat, workers as nat),
{
    if n % workers == 0 {
        n / workers
    } else {
        proof {
            vstd::arithmetic::div_mod::lemma_fundamental_div_mod(n as int, workers as int);
            let q = n as int / workers as int;
            let m = n as int % workers as int;
            assert(q < n) by (nonlinear_arith)
                requires
                    n == workers * q + m,
                    0 < m < workers,
                    q >= 0,
            ;
        }
        n / workers + 1
    }
}

/// The bounds of the chunks of `n` words shared among `workers` workers:
/// chunk `i` is `[i * size, min((i + 1) * size, n))`, and no chunk starts at or
/// after `n`.
pub fn chunk_bounds(n: usize, workers: usize) -> (r: Vec<(usize, usize)>)
    requires
        workers > 0,
    ensures
        r@.len() <= workers,
        r@.len() * chunk_len(n as nat, workers as nat) >= n,
        forall|i: int|
            0 <= i < r@.len() ==> #[trigger] r@[i].0 < n && (r@[i].0 as int, r@[i].1 as int)
                == chunk_at(n as nat, chunk_len(n as nat, workers as nat), i),
{
    let size = chunk_size(n, workers);
    proof {
        lemma_chunks_reach_end(n as nat, workers as nat);
    }
    let mut bounds: Vec<(usize, usize)> = Vec::new();
    let mut i: usize = 0;
    let mut start: usize = 0;
    let mut done = n == 0;
    while i < workers && !done
        invariant
            i <= workers,
            size as nat == chunk_len(n as nat, workers as nat),
            workers * size >= n,
            bounds@.len() == i,
            done ==> i * size >= n,
            !done ==> start as int == i * size && start < n,
            n == 0 ==> done,
            forall|j: int|
                0 <= j < i ==> #[trigger] bounds@[j].0 < n && (bounds@[j].0 as int, bounds@[j].1 as int)
                    == chunk_at(n as nat, size as nat, j),
        decreases workers - i,
    {
        assert((i + 1) * size == i * size + size) by (nonlinear_arith);
        let end = if n - start <= size {
            n
        } else {
            start + size
        };
        bounds.push((start, end));
        i = i + 1;
        if end == n {
            done = true;
        } else {
            start = end;
        }
    }
    bounds
}

/// The words of `chunk` within `max_distance` of `search_word`, in order.
pub fn filter_chunk(chunk: &[String], search_word: &str, max_distance: usize) -> (r: Vec<String>)
    ensures
        r@ == matching_words(chunk@, search_word@, max_distance as nat),
        forall|i: int|
            0 <= i < chunk@.len() && (#[trigger] chunk@[i])@ == search_word@ ==> r@.contains(chunk@[i]),
{
    let mut found: Vec<String> = Vec::new();
    let mut i: usize = 0;
    while i < chunk.len()
        invariant
            i <= chunk@.len(),
            found@ == matching_words(chunk@.subrange(0, i as int), search_word@, max_distance as nat),
            forall|j: int|
                0 <= j < i && (#[trigger] chunk@[j])@ == search_word@ ==> found@.contains(chunk@[j]),
        decreases chunk@.len() - i,
    {
        let word = &chunk[i];
        proof {
            let one = seq![*word];
            assert(chunk@.subrange(0, i + 1) =~= chunk@.subrange(0, i as int) + one);
            lemma_matches_concat(chunk@.subrange(0, i as int), one, search_word@, max_distance as nat);
            assert(one.subrange(1, 1) =~= Seq::<String>::empty());
            assert(matching_words(one.subrange(1, 1), search_word@, max_distance as nat) =~= Seq::<
                String,
            >::empty());
            if is_match(search_word@, max_distance as nat, *word) {
                assert(matching_words(one, search_word@, max_distance as nat) =~= one);
            } else {
                assert(matching_words(one, search_word@, max_distance as nat) =~= Seq::<String>::empty());
            }
        }
        let ghost before = found@;
        if word_matches(search_word, max_distance, word) {
            found.push(word.clone());
            assert forall|j: int|
                0 <= j < i && (#[trigger] chunk@[j])@ == search_word@ implies found@.contains(
                chunk@[j],
            ) by {
                let x = choose|x: int| 0 <= x < before.len() && before[x] == chunk@[j];
                assert(found@[x] == chunk@[j]);
            }
            assert(found@[found@.len() - 1] == chunk@[i as int]);
            assert(found@ =~= matching_words(chunk@.subrange(0, i + 1), search_word@, max_distance as nat));
        }
        i = i + 1;
    }
    assert(chunk@.subrange(0, chunk@.len() as int) =~= chunk@);
    found
}

/// The matches of the chunks, joined in chunk order, are the matches of the
/// first `min(k * size, n)` words, as long as chunk `k - 1` starts before `n`.
proof fn lemma_chunked_prefix(tokens: Seq<String>, query: Seq<char>, max: nat, size: nat, k: nat)
    requires
        k == 0 || (k - 1) * size < tokens.len(),
    ensures
        chunked_matches(tokens, query, max, size, k) == matching_words(
            tokens.subrange(0, chunk_at(tokens.len(), size, k as int - 1).1),
            query,
            max,
        ),
    decreases k,
{
    let n = tokens.len();
    if k == 0 {
        assert(tokens.subrange(0, chunk_at(n, size, -1).1) =~= Seq::<String>::empty()) by {
            assert(0 * size == 0) by (nonlinear_arith);
        }
        assert(matching_words(Seq::<String>::empty(), query, max) =~= Seq::<String>::empty());
    } else {
        let j = k - 1;
        if j > 0 {
            assert((j - 1) * size <= j * size) by (nonlinear_arith);
        }
        lemma_chunked_prefix(tokens, query, max, size, j as nat);
        assert(k * size == j * size + size) by (nonlinear_arith)
            requires
                k == j + 1,
        ;
        assert((j - 1 + 1) * size == j * size);
        let b = chunk_at(n, size, j);
        assert(chunk_at(n, size, j - 1).1 == b.0);
        assert(b.0 <= b.1);
        assert(tokens.subrange(0, b.1) =~= tokens.subrange(0, b.0) + tokens.subrange(b.0, b.1));
        lemma_matches_concat(tokens.subrange(0, b.0), tokens.subrange(b.0, b.1), query, max);
    }
}

/// Matching chunk by chunk over the chunks that `chunk_bounds` gives, and
/// joining the results in chunk order, yields the matches of all the words.
pub proof fn lemma_chunks_cover(tokens: Seq<String>, query: Seq<char>, max: nat, workers: nat, count: nat)
    requires
        workers > 0,
        count * chunk_len(tokens.len(), workers) >= tokens.len(),
        count == 0 || (count - 1) * chunk_len(tokens.len(), workers) < tokens.len(),
    ensures
        chunked_matches(tokens, query, max, chunk_len(tokens.len(), workers), count) == matching_words(
            tokens,
            query,
            max,
        ),
{
    let size = chunk_len(tokens.len(), workers);
    lemma_chunked_prefix(tokens, query, max, size, count);
    if count == 0 {
        assert(tokens.len() == 0) by (nonlinear_arith)
            requires
                count == 0,
                count * size >= tokens.len(),
        ;
    } else {
        assert((count - 1 + 1) * size == count * size);
    }
    assert(tokens.subrange(0, chunk_at(tokens.len(), size, count as int - 1).1) =~= tokens);
}

/// The matches of the first `k` chunks, as a multiset: what workers that each
/// send the matches of one chunk deliver together, in whatever order they
/// arrive.
pub open spec fn chunk_match_multiset(
    tokens: Seq<String>,
    query: Seq<char>,
    max: nat,
    size: nat,
    k: nat,
) -> Multiset<String>
    decreases k,
{
    if k == 0 {
        Multiset::empty()
    } else {
        let b = chunk_at(tokens.len(), size, k - 1);
        chunk_match_multiset(tokens, query, max, size, (k - 1) as nat).add(
            matching_words(tokens.subrange(b.0, b.1), query, max).to_multiset(),
        )
    }
}

proof fn lemma_chunk_multiset_is_chunked(tokens: Seq<String>, query: Seq<char>, max: nat, size: nat, k: nat)
    ensures
        chunk_match_multiset(tokens, query, max, size, k) == chunked_matches(
            tokens,
            query,
            max,
            size,
            k,
        ).to_multiset(),
    decreases k,
{
    broadcast use vstd::seq_lib::group_to_multiset_ensures;

    if k == 0 {
        assert(chunked_matches(tokens, query, max, size, 0).to_multiset() =~= Multiset::empty());
    } else {
        let b = chunk_at(tokens.len(), size, k - 1);
        lemma_chunk_multiset_is_chunked(tokens, query, max, size, (k - 1) as nat);
        vstd::seq_lib::lemma_multiset_commutative(
            chunked_matches(tokens, query, max, size, (k - 1) as nat),
            matching_words(tokens.subrange(b.0, b.1), query, max),
        );
    }
}

/// Whatever order the workers' matches arrive in, a sequence that holds
/// exactly the matches of every chunk that `chunk_bounds` gives holds the
/// matches of the whole source, each as often as there.
pub proof fn lemma_merge_in_any_order(
    tokens: Seq<String>,
    query: Seq<char>,
    max: nat,
    workers: nat,
    count: nat,
    merged: Seq<String>,
)
    requires
        workers > 0,
        count * chunk_len(tokens.len(), workers) >= tokens.len(),
        count == 0 || (count - 1) * chunk_len(tokens.len(), workers) < tokens.len(),
        merged.to_multiset() == chunk_match_multiset(
            tokens,
            query,
            max,
            chunk_len(tokens.len(), workers),
            count,
        ),
    ensures
        merged.to_multiset() == matching_words(tokens, query, max).to_multiset(),
{
    lemma_chunk_multiset_is_chunked(tokens, query, max, chunk_len(tokens.len(), workers), count);
    lemma_chunks_cover(tokens, query, max, workers, count);
}

/// The merged matches of a parallel run, handed out one at a time.
pub struct FilteredWords {
    found: VecDeque<String>,
}

impl FilteredWords {
    /// The matches not yet handed out.
    pub closed spec fn pending(&self) -> Seq<String> {
        self.found@
    }

    /// Hands out the next match; `None` once all have been handed out.
    pub fn next(&mut self) -> (r: Option<String>)
        ensures
            match r {
                None => old(self).pending().len() == 0 && final(self).pending() == old(self).pending(),
                Some(w) => old(self).pending().len() > 0 && w == old(self).pending()[0]
                    && final(self).pending() == old(self).pending().subrange(
                    1,
                    old(self).pending().len() as int,
                ),
            },
    {
        self.found.pop_front()
    }
}

/// Relies on `num_cpus::get`: the number of logical CPUs available to this
/// process, which its documentation says is always at least 1.
#[verifier::external_body]
fn available_workers() -> (r: usize)
    ensures
        r >= 1,
{
    num_cpus::get()
}

/// Reads the whole source, shares the words among `workers` chunks of equal
/// size, matches each chunk on its own, and joins the matches in chunk order.
/// Fails with the first read failure, before any matching, if there is one.
pub fn filter_words_with_workers<E>(
    words: Vec<Result<String, E>>,
    search_word: &str,
    max_distance: usize,
    workers: usize,
) -> (r: Result<FilteredWords, E>)
    requires
        workers > 0,
    ensures
        r is Ok <==> all_read(words@),
        r is Ok ==> r->Ok_0.pending() == matching_words(
            tokens_of(words@),
            search_word@,
            max_distance as nat,
        ),
        r is Err ==> first_failure(words@, r->Err_0),
{
    let lines = match to_vec(words) {
        Ok(v) => v,
        Err(e) => {
            return Err(e);
        },
    };
    let bounds = chunk_bounds(lines.len(), workers);
    let ghost size = chunk_len(lines@.len(), workers as nat);
    let mut found: Vec<String> = Vec::new();
    let mut i: usize = 0;
    while i < bounds.len()
        invariant
            i <= bounds@.len(),
            bounds@.len() <= workers,
            bounds@.len() * size >= lines@.len(),
            forall|j: int|
                0 <= j < bounds@.len() ==> #[trigger] bounds@[j].0 < lines@.len() && (
                bounds@[j].0 as int,
                bounds@[j].1 as int,
            ) == chunk_at(lines@.len(), size, j),
            found@ == chunked_matches(lines@, search_word@, max_distance as nat, size, i as nat),
        decreases bounds@.len() - i,
    {
        let (start, end) = bounds[i];
        assert(bounds@[i as int].0 < lines@.len());
        assert(i * size <= (i + 1) * size) by (nonlinear_arith);
        let chunk = slice_subrange(lines.as_slice(), start, end);
        let mut part = filter_chunk(chunk, search_word, max_distance);
        found.append(&mut part);
        i = i + 1;
    }
    proof {
        if bounds@.len() > 0 {
            assert(bounds@[bounds@.len() - 1].0 < lines@.len());
        }
        lemma_chunks_cover(lines@, search_word@, max_distance as nat, workers as nat, bounds@.len() as nat);
    }
    Ok(FilteredWords { found: into_queue(found) })
}

/// Filters the source in parallel mode, with as many chunks as the host has
/// logical CPUs. The result does not depend on that number.
pub fn filter_words<E>(words: Vec<Result<String, E>>, search_word: &str, max_distance: usize) -> (r:
    Result<FilteredWords, E>)
    ensures
        r is Ok <==> all_read(words@),
        r is Ok ==> r->Ok_0.pending() == matching_words(
            tokens_of(words@),
            search_word@,
            max_distance as nat,
        ),
        r is Err ==> first_failure(words@, r->Err_0),
{
    let workers = available_workers();
    filter_words_with_workers(words, search_word, max_distance, workers)
}

} // verus!
