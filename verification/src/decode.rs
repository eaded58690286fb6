use vstd::prelude::*;

verus! {

/// The score of certainty. Scores are probabilities in units of
/// `1 / SCORE_ONE`, that is of two to the power of minus 31: in this unit
/// every probability of at least 1/256 that is given to 24 binary digits is
/// a whole number.
pub const SCORE_ONE: u32 = 2147483648;

/// A character with the score that the model gave it.
pub type CharScore = (char, u32);

/// The class that the model prefers at one timestep, with its score.
pub type Prediction = (int, u32);

/// Thresholds of a decoder, in units of `1 / SCORE_ONE`.
pub struct Thresholds {
    pub min_score: int,
    pub punct_min_score: int,
}

/// Whether the character is a punctuation mark, Western or Chinese.
pub open spec fn is_punctuation_char(c: char) -> bool {
    c == ',' || c == '.' || c == '!' || c == '?' || c == ';' || c == ':' || c == '"' || c == '\''
        || c == '(' || c == ')' || c == '[' || c == ']' || c == '{' || c == '}' || c == '-' || c
        == '_' || c == '/' || c == '\\' || c == '|' || c == '@' || c == '#' || c == '$' || c == '%'
        || c == '&' || c == '*' || c == '+' || c == '=' || c == '~' || c == '\u{ff0c}' || c
        == '\u{3002}' || c == '\u{ff01}' || c == '\u{ff1f}' || c == '\u{ff1b}' || c == '\u{ff1a}'
        || c == '\u{3001}' || c == '\u{300c}' || c == '\u{300d}' || c == '\u{300e}' || c
        == '\u{300f}' || c == '\u{ff08}' || c == '\u{ff09}' || c == '\u{3010}' || c == '\u{3011}'
        || c == '\u{300a}' || c == '\u{300b}' || c == '\u{2014}' || c == '\u{2026}' || c
        == '\u{00b7}' || c == '\u{ff5e}'
}

/// The score that a character must exceed to be emitted.
pub open spec fn threshold_for(limits: Thresholds, c: char) -> int {
    if is_punctuation_char(c) {
        limits.punct_min_score
    } else {
        limits.min_score
    }
}

/// Whether a punctuation mark that did not exceed its threshold is emitted
/// all the same: its score is above four fifths of the threshold.
pub open spec fn punctuation_fallback(limits: Thresholds, c: char, score: int) -> bool {
    is_punctuation_char(c) && 5 * score > 4 * limits.punct_min_score
}

/// Whether a character with this score may be emitted at all.
pub open spec fn admissible(limits: Thresholds, c: char, score: int) -> bool {
    score > threshold_for(limits, c) || punctuation_fallback(limits, c, score)
}

/// The class with the greatest score of one timestep: the first one among
/// those with the greatest score, or class 0 with score 0 if no score is
/// above 0.
pub open spec fn best_class(row: Seq<u32>) -> Prediction
    decreases row.len(),
{
    if row.len() == 0 {
        (0, 0)
    } else {
        let before = best_class(row.drop_last());
        if row.last() > before.1 {
            (row.len() - 1, row.last())
        } else {
            before
        }
    }
}

/// What `best_class` picks, said directly: no score is above the picked
/// one; if the picked score is above 0 it is the score of the picked class
/// and every earlier class scores less; otherwise the picked class is 0.
pub proof fn lemma_best_class(row: Seq<u32>)
    ensures
        forall|j: int| 0 <= j < row.len() ==> #[trigger] row[j] <= best_class(row).1,
        best_class(row).1 > 0 ==> 0 <= best_class(row).0 < row.len() && row[best_class(row).0]
            == best_class(row).1 && forall|j: int|
            0 <= j < best_class(row).0 ==> #[trigger] row[j] < best_class(row).1,
        best_class(row).1 == 0 ==> best_class(row).0 == 0,
        0 <= best_class(row).0,
        row.len() > 0 ==> best_class(row).0 < row.len(),
    decreases row.len(),
{
    if row.len() > 0 {
        let front = row.drop_last();
        lemma_best_class(front);
        assert forall|j: int| 0 <= j < row.len() implies #[trigger] row[j] <= best_class(row).1 by {
            if j < front.len() {
                assert(front[j] == row[j]);
            }
        }
        if best_class(row).1 > 0 {
            assert forall|j: int| 0 <= j < best_class(row).0 implies #[trigger] row[j]
                < best_class(row).1 by {
                assert(front[j] == row[j]);
            }
            if !(row.last() > best_class(front).1) {
                assert(front[best_class(front).0] == row[best_class(front).0]);
            }
        }
    }
}

/// State of the first pass: the character that repeats are measured
/// against, and what has been emitted so far.
pub struct PassState {
    pub last: Option<char>,
    pub emitted: Seq<CharScore>,
}

/// One timestep of the first pass. The blank class and classes outside the
/// table reset the last character. A character above its threshold is
/// emitted unless it repeats the last character and is no punctuation, and
/// becomes the last character. A punctuation mark that only meets the
/// fallback is emitted and leaves the last character alone. Anything else
/// resets the last character.
pub open spec fn decode_step(
    limits: Thresholds,
    keys: Seq<char>,
    state: PassState,
    prediction: Prediction,
) -> PassState {
    let index = prediction.0;
    let score = prediction.1;
    if 0 < index < keys.len() {
        let c = keys[index];
        if score > threshold_for(limits, c) {
            PassState {
                last: Some(c),
                emitted: if state.last != Some(c) || is_punctuation_char(c) {
                    state.emitted.push((c, score))
                } else {
                    state.emitted
                },
            }
        } else if punctuation_fallback(limits, c, score as int) {
            PassState { last: state.last, emitted: state.emitted.push((c, score)) }
        } else {
            PassState { last: None, emitted: state.emitted }
        }
    } else {
        PassState { last: None, emitted: state.emitted }
    }
}

/// The first pass over a sequence of predictions, from a given state.
pub open spec fn first_pass(
    limits: Thresholds,
    keys: Seq<char>,
    state: PassState,
    predictions: Seq<Prediction>,
) -> PassState
    decreases predictions.len(),
{
    if predictions.len() == 0 {
        state
    } else {
        decode_step(
            limits,
            keys,
            first_pass(limits, keys, state, predictions.drop_last()),
            predictions.last(),
        )
    }
}

/// The second pass: of each run of one and the same punctuation mark only
/// the first occurrence stays.
pub open spec fn collapse(emitted: Seq<CharScore>) -> Seq<CharScore>
    decreases emitted.len(),
{
    if emitted.len() == 0 {
        Seq::empty()
    } else {
        let before = collapse(emitted.drop_last());
        let item = emitted.last();
        if emitted.len() >= 2 && is_punctuation_char(item.0) && emitted[emitted.len() - 2].0
            == item.0 {
            before
        } else {
            before.push(item)
        }
    }
}

/// The state in which decoding starts.
pub open spec fn initial_state() -> PassState {
    PassState { last: None, emitted: Seq::empty() }
}

/// The characters decoded from a sequence of predictions: the first pass
/// from the initial state, then the second pass.
pub open spec fn decode_predictions(
    limits: Thresholds,
    keys: Seq<char>,
    predictions: Seq<Prediction>,
) -> Seq<CharScore> {
    collapse(first_pass(limits, keys, initial_state(), predictions).emitted)
}

/// The decoded text: the characters without their scores.
pub open spec fn text_of(decoded: Seq<CharScore>) -> Seq<char> {
    decoded.map_values(|item: CharScore| item.0)
}

/// Sum of the scores.
pub open spec fn score_sum(decoded: Seq<CharScore>) -> int
    decreases decoded.len(),
{
    if decoded.len() == 0 {
        0
    } else {
        score_sum(decoded.drop_last()) + decoded.last().1
    }
}

/// The confidence of a decoded text: the mean of the scores, rounded down,
/// and 0 for the empty text.
pub open spec fn confidence_of(decoded: Seq<CharScore>) -> int {
    if decoded.len() == 0 {
        0
    } else {
        score_sum(decoded) / (decoded.len() as int)
    }
}

/// A character that does not exceed its threshold is dropped, unless it is
/// a punctuation mark that meets the fallback: then it is emitted.
pub proof fn lemma_below_threshold(
    limits: Thresholds,
    keys: Seq<char>,
    state: PassState,
    prediction: Prediction,
)
    requires
        0 < prediction.0 < keys.len(),
        prediction.1 <= threshold_for(limits, keys[prediction.0]),
    ensures
        punctuation_fallback(limits, keys[prediction.0], prediction.1 as int) ==> decode_step(
            limits,
            keys,
            state,
            prediction,
        ).emitted == state.emitted.push((keys[prediction.0], prediction.1)),
        !punctuation_fallback(limits, keys[prediction.0], prediction.1 as int) ==> decode_step(
            limits,
            keys,
            state,
            prediction,
        ).emitted == state.emitted,
{
}

/// Every item of the sequence may be emitted.
pub open spec fn all_admissible(limits: Thresholds, items: Seq<CharScore>) -> bool {
    forall|i: int|
        0 <= i < items.len() ==> admissible(limits, (#[trigger] items[i]).0, items[i].1 as int)
}

/// The first pass emits only what may be emitted.
pub proof fn lemma_first_pass_admissible(
    limits: Thresholds,
    keys: Seq<char>,
    state: PassState,
    predictions: Seq<Prediction>,
)
    requires
        all_admissible(limits, state.emitted),
    ensures
        all_admissible(limits, first_pass(limits, keys, state, predictions).emitted),
    decreases predictions.len(),
{
    if predictions.len() > 0 {
        lemma_first_pass_admissible(limits, keys, state, predictions.drop_last());
    }
}

/// The second pass only takes items away.
pub proof fn lemma_collapse_keeps(emitted: Seq<CharScore>)
    ensures
        collapse(emitted).len() <= emitted.len(),
        forall|i: int|
            0 <= i < collapse(emitted).len() ==> emitted.contains(#[trigger] collapse(emitted)[i]),
        emitted.len() > 0 ==> collapse(emitted).len() > 0 && collapse(emitted)[0] == emitted[0],
    decreases emitted.len(),
{
    if emitted.len() > 0 {
        let front = emitted.drop_last();
        lemma_collapse_keeps(front);
        let out = collapse(emitted);
        assert forall|i: int| 0 <= i < out.len() implies emitted.contains(#[trigger] out[i]) by {
            if i < collapse(front).len() {
                let k = choose|k: int| 0 <= k < front.len() && front[k] == collapse(front)[i];
                assert(emitted[k] == out[i]);
            } else {
                assert(emitted[emitted.len() - 1] == out[i]);
            }
        }
        if front.len() > 0 {
            assert(front[0] == emitted[0]);
        }
    }
}

/// Whatever is decoded either exceeded the threshold of its class or is a
/// punctuation mark that met the fallback.
pub proof fn lemma_decoded_admissible(
    limits: Thresholds,
    keys: Seq<char>,
    predictions: Seq<Prediction>,
)
    ensures
        all_admissible(limits, decode_predictions(limits, keys, predictions)),
{
    let emitted = first_pass(limits, keys, initial_state(), predictions).emitted;
    lemma_first_pass_admissible(limits, keys, initial_state(), predictions);
    lemma_collapse_keeps(emitted);
    let out = collapse(emitted);
    assert forall|i: int| 0 <= i < out.len() implies admissible(
        limits,
        (#[trigger] out[i]).0,
        out[i].1 as int,
    ) by {
        let k = choose|k: int| 0 <= k < emitted.len() && emitted[k] == out[i];
        assert(admissible(limits, emitted[k].0, emitted[k].1 as int));
    }
}

/// The predictions are all for the class `index`, each with a score above
/// the threshold of that class's character.
pub open spec fn is_run(
    limits: Thresholds,
    keys: Seq<char>,
    run: Seq<Prediction>,
    index: int,
) -> bool {
    &&& 0 < index < keys.len()
    &&& forall|i: int|
        0 <= i < run.len() ==> (#[trigger] run[i]).0 == index && run[i].1 > threshold_for(
            limits,
            keys[index],
        )
}

/// The first pass over a run: a character that is no punctuation is emitted
/// once, with the first score; a punctuation mark is emitted at each
/// timestep.
pub proof fn lemma_first_pass_run(
    limits: Thresholds,
    keys: Seq<char>,
    run: Seq<Prediction>,
    index: int,
)
    requires
        is_run(limits, keys, run, index),
        run.len() >= 1,
    ensures
        first_pass(limits, keys, initial_state(), run).last == Some(keys[index]),
        !is_punctuation_char(keys[index]) ==> first_pass(
            limits,
            keys,
            initial_state(),
            run,
        ).emitted == seq![(keys[index], run[0].1)],
        is_punctuation_char(keys[index]) ==> first_pass(limits, keys, initial_state(), run).emitted
            == run.map_values(|p: Prediction| (keys[index], p.1)),
    decreases run.len(),
{
    let c = keys[index];
    let front = run.drop_last();
    assert(run.last() == run[run.len() - 1]);
    if run.len() == 1 {
        assert(front =~= Seq::<Prediction>::empty());
        assert(first_pass(limits, keys, initial_state(), front) == initial_state());
        assert(initial_state().emitted.push((c, run[0].1)) =~= seq![(c, run[0].1)]);
        assert(run.map_values(|p: Prediction| (c, p.1)) =~= seq![(c, run[0].1)]);
    } else {
        assert forall|i: int| 0 <= i < front.len() implies (#[trigger] front[i]).0 == index
            && front[i].1 > threshold_for(limits, c) by {
            assert(front[i] == run[i]);
        }
        lemma_first_pass_run(limits, keys, front, index);
        assert(front[0] == run[0]);
        if is_punctuation_char(c) {
            assert(front.map_values(|p: Prediction| (c, p.1)).push((c, run.last().1))
                =~= run.map_values(|p: Prediction| (c, p.1)));
        }
    }
}

/// The second pass over repeats of one punctuation mark keeps the first.
pub proof fn lemma_collapse_run(emitted: Seq<CharScore>, c: char)
    requires
        emitted.len() >= 1,
        is_punctuation_char(c),
        forall|i: int| 0 <= i < emitted.len() ==> (#[trigger] emitted[i]).0 == c,
    ensures
        collapse(emitted) == seq![emitted[0]],
    decreases emitted.len(),
{
    let front = emitted.drop_last();
    if emitted.len() == 1 {
        assert(front =~= Seq::<CharScore>::empty());
        assert(collapse(front) =~= Seq::<CharScore>::empty());
        assert(Seq::<CharScore>::empty().push(emitted.last()) =~= seq![emitted[0]]);
    } else {
        assert forall|i: int| 0 <= i < front.len() implies (#[trigger] front[i]).0 == c by {
            assert(front[i] == emitted[i]);
        }
        lemma_collapse_run(front, c);
        assert(front[0] == emitted[0]);
        assert(emitted[emitted.len() - 2].0 == c);
        assert(emitted.last() == emitted[emitted.len() - 1]);
    }
}

/// A run of identical predictions above the threshold, for a class that is
/// not the blank one, decodes to exactly one character, with the score of
/// the run's first timestep. This holds for punctuation and for other
/// characters alike.
pub proof fn lemma_run_decodes_once(
    limits: Thresholds,
    keys: Seq<char>,
    run: Seq<Prediction>,
    index: int,
)
    requires
        is_run(limits, keys, run, index),
        run.len() >= 1,
    ensures
        decode_predictions(limits, keys, run) == seq![(keys[index], run[0].1)],
{
    let c = keys[index];
    lemma_first_pass_run(limits, keys, run, index);
    let emitted = first_pass(limits, keys, initial_state(), run).emitted;
    if is_punctuation_char(c) {
        lemma_collapse_run(emitted, c);
    } else {
        assert(emitted.drop_last() =~= Seq::<CharScore>::empty());
        assert(collapse(emitted.drop_last()) =~= Seq::<CharScore>::empty());
        assert(Seq::<CharScore>::empty().push(emitted.last()) =~= seq![emitted[0]]);
    }
}

/// The first pass over a sequence of predictions is the first pass over its
/// front followed by the first pass over its back.
pub proof fn lemma_first_pass_split(
    limits: Thresholds,
    keys: Seq<char>,
    state: PassState,
    front: Seq<Prediction>,
    back: Seq<Prediction>,
)
    ensures
        first_pass(limits, keys, state, front + back) == first_pass(
            limits,
            keys,
            first_pass(limits, keys, state, front),
            back,
        ),
    decreases back.len(),
{
    if back.len() == 0 {
        assert(front + back =~= front);
    } else {
        lemma_first_pass_split(limits, keys, state, front, back.drop_last());
        assert((front + back).drop_last() =~= front + back.drop_last());
        assert((front + back).last() == back.last());
    }
}

/// A run of a character that is no punctuation, wherever it stands: if the
/// character is not the one that repeats are measured against, it is
/// emitted once, with the score of the run's first timestep; if it is, the
/// run goes on from before and nothing is emitted.
pub proof fn lemma_letter_run_from(
    limits: Thresholds,
    keys: Seq<char>,
    state: PassState,
    run: Seq<Prediction>,
    index: int,
)
    requires
        is_run(limits, keys, run, index),
        run.len() >= 1,
        !is_punctuation_char(keys[index]),
    ensures
        first_pass(limits, keys, state, run).last == Some(keys[index]),
        state.last != Some(keys[index]) ==> first_pass(limits, keys, state, run).emitted
            == state.emitted.push((keys[index], run[0].1)),
        state.last == Some(keys[index]) ==> first_pass(limits, keys, state, run).emitted
            == state.emitted,
    decreases run.len(),
{
    let front = run.drop_last();
    assert(run.last() == run[run.len() - 1]);
    if run.len() == 1 {
        assert(front =~= Seq::<Prediction>::empty());
        assert(first_pass(limits, keys, state, front) == state);
    } else {
        assert forall|i: int| 0 <= i < front.len() implies (#[trigger] front[i]).0 == index
            && front[i].1 > threshold_for(limits, keys[index]) by {
            assert(front[i] == run[i]);
        }
        lemma_letter_run_from(limits, keys, state, front, index);
        assert(front[0] == run[0]);
    }
}

/// The second pass over what was emitted before a run of one punctuation
/// mark and the run itself: the run adds its first item, unless the item
/// before the run is the same mark, in which case it adds nothing.
pub proof fn lemma_collapse_after(before: Seq<CharScore>, run: Seq<CharScore>, c: char)
    requires
        run.len() >= 1,
        is_punctuation_char(c),
        forall|i: int| 0 <= i < run.len() ==> (#[trigger] run[i]).0 == c,
    ensures
        before.len() > 0 && before.last().0 == c ==> collapse(before + run) == collapse(before),
        !(before.len() > 0 && before.last().0 == c) ==> collapse(before + run) == collapse(
            before,
        ).push(run[0]),
    decreases run.len(),
{
    let all = before + run;
    assert(all.drop_last() =~= before + run.drop_last());
    assert(all.last() == run[run.len() - 1]);
    if run.len() == 1 {
        assert(before + run.drop_last() =~= before);
        if before.len() > 0 {
            assert(all[all.len() - 2] == before.last());
        }
    } else {
        let front = run.drop_last();
        assert forall|i: int| 0 <= i < front.len() implies (#[trigger] front[i]).0 == c by {
            assert(front[i] == run[i]);
        }
        lemma_collapse_after(before, front, c);
        assert(front[0] == run[0]);
        assert(all[all.len() - 2] == run[run.len() - 2]);
    }
}

} // verus!
