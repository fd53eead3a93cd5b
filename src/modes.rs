use vstd::prelude::*;
use crate::distance::is_match;
use crate::lfilter::{passes, serial_output};
use crate::pfilter::{all_read, matching_words, tokens_of};

verus! {

/// Wraps each word as a successfully read item.
pub open spec fn read_items<E>(words: Seq<String>) -> Seq<Result<String, E>> {
    words.map_values(|w: String| Ok::<String, E>(w))
}

/// On a source free of read failures, the sequential filter yields exactly the
/// matches that the parallel filter collects, in the same order, and a word is
/// among them if and only if it is in the source and within `max` of `query`.
pub proof fn lemma_modes_agree<E>(items: Seq<Result<String, E>>, query: Seq<char>, max: nat)
    requires
        all_read(items),
    ensures
        serial_output(items, query, max) == read_items::<E>(matching_words(tokens_of(items), query, max)),
        forall|w: String|
            #[trigger] matching_words(tokens_of(items), query, max).contains(w) <==> tokens_of(items).contains(w)
                && is_match(query, max, w),
    decreases items.len(),
{
    let tokens = tokens_of(items);
    if items.len() == 0 {
        assert(read_items::<E>(matching_words(tokens, query, max)) =~= Seq::<Result<String, E>>::empty());
        assert forall|w: String| #[trigger]
            matching_words(tokens, query, max).contains(w) <==> tokens.contains(w) && is_match(query, max, w) by {
            assert(matching_words(tokens, query, max) =~= Seq::<String>::empty());
        }
    } else {
        let rest = items.subrange(1, items.len() as int);
        assert(all_read(rest)) by {
            assert forall|i: int| 0 <= i < rest.len() implies (#[trigger] rest[i]) is Ok by {
                assert(rest[i] == items[i + 1]);
            }
        }
        lemma_modes_agree::<E>(rest, query, max);
        assert(tokens_of(rest) =~= tokens.subrange(1, tokens.len() as int));
        assert(items[0] is Ok);
        assert(items[0] == Ok::<String, E>(tokens[0]));
        assert(passes(query, max, items[0]) == is_match(query, max, tokens[0]));
        let m_rest = matching_words(tokens_of(rest), query, max);
        if is_match(query, max, tokens[0]) {
            assert(read_items::<E>(matching_words(tokens, query, max)) =~= seq![items[0]] + read_items::<E>(
                m_rest,
            ));
        } else {
            assert(read_items::<E>(matching_words(tokens, query, max)) =~= read_items::<E>(m_rest));
        }
        assert forall|w: String| #[trigger]
            matching_words(tokens, query, max).contains(w) <==> tokens.contains(w) && is_match(query, max, w) by {
            let t_rest = tokens_of(rest);
            if tokens.contains(w) && is_match(query, max, w) {
                let x = choose|x: int| 0 <= x < tokens.len() && tokens[x] == w;
                if x > 0 {
                    assert(t_rest[x - 1] == w);
                    assert(m_rest.contains(w));
                    if is_match(query, max, tokens[0]) {
                        let y = choose|y: int| 0 <= y < m_rest.len() && m_rest[y] == w;
                        assert(matching_words(tokens, query, max)[y + 1] == w);
                    }
                } else {
                    assert(matching_words(tokens, query, max)[0] == w);
                }
            }
            if matching_words(tokens, query, max).contains(w) {
                let y = choose|y: int| 0 <= y < matching_words(tokens, query, max).len() && matching_words(tokens, query, max)[y] == w;
                if is_match(query, max, tokens[0]) && y == 0 {
                    assert(tokens[0] == w);
                } else {
                    let z = if is_match(query, max, tokens[0]) { y - 1 } else { y };
                    assert(m_rest[z] == w);
                    assert(m_rest.contains(w));
                    let x = choose|x: int| 0 <= x < t_rest.len() && t_rest[x] == w;
                    assert(tokens[x + 1] == w);
                }
            }
        }
    }
}

/// An empty source gives no output in either mode, and the parallel mode does
/// not fail on it.
pub proof fn lemma_empty_source<E>(query: Seq<char>, max: nat)
    ensures
        serial_output(Seq::<Result<String, E>>::empty(), query, max) == Seq::<Result<String, E>>::empty(),
        all_read(Seq::<Result<String, E>>::empty()),
        matching_words(tokens_of(Seq::<Result<String, E>>::empty()), query, max) == Seq::<String>::empty(),
{
    assert(tokens_of(Seq::<Result<String, E>>::empty()) =~= Seq::<String>::empty());
}

} // verus!
