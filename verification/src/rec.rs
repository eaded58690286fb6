use crate::decode::{
    best_class, collapse, confidence_of, decode_predictions, decode_step, first_pass,
    initial_state, is_punctuation_char, score_sum, text_of, CharScore, PassState, Prediction,
    Thresholds,
};
use crate::error::{OcrError, OcrResult};
use vstd::prelude::*;
use vstd::string::StringExecFns;

verus! {

/// Threshold for characters other than punctuation unless told otherwise:
/// six tenths, to 24 binary digits, in units of `1 / SCORE_ONE`.
pub const MIN_SCORE_DEFAULT: u32 = 1288490240;

/// Threshold for punctuation unless told otherwise: one tenth, to 24 binary
/// digits, in units of `1 / SCORE_ONE`.
pub const PUNCT_MIN_SCORE_DEFAULT: u32 = 214748368;

/// Height to which taller text images are scaled before recognition.
pub const INPUT_HEIGHT: u32 = 48;

/// `String::push` appends the character to the text.
pub assume_specification[ String::push ](text: &mut String, c: char)
    ensures
        final(text)@ == old(text)@.push(c),
;

/// Mathematical model of the output of the recognition model: for each of
/// `timesteps` steps a score, in units of `1 / SCORE_ONE`, for each of `vocab`
/// classes.
pub struct TensorView {
    pub timesteps: int,
    pub vocab: int,
    pub data: Seq<u32>,
}

impl TensorView {
    /// The buffer holds one score per class and timestep.
    pub open spec fn wf(self) -> bool {
        &&& 0 <= self.timesteps
        &&& 0 <= self.vocab
        &&& self.data.len() == self.timesteps * self.vocab
    }

    /// The scores of timestep `t`.
    pub open spec fn row(self, t: int) -> Seq<u32> {
        self.data.subrange(t * self.vocab, (t + 1) * self.vocab)
    }

    /// The preferred class of each timestep.
    pub open spec fn predictions(self) -> Seq<Prediction> {
        Seq::new(self.timesteps as nat, |t: int| best_class(self.row(t)))
    }
}

/// The output of the recognition model for one image.
#[derive(Debug)]
pub struct ScoreTensor {
    timesteps: usize,
    vocab: usize,
    data: Vec<u32>,
}

impl View for ScoreTensor {
    type V = TensorView;

    closed spec fn view(&self) -> TensorView {
        TensorView {
            timesteps: self.timesteps as int,
            vocab: self.vocab as int,
            data: self.data@,
        }
    }
}

impl ScoreTensor {
    #[verifier::type_invariant]
    pub closed spec fn inv(self) -> bool {
        self@.wf()
    }

    /// What holds of every tensor that exists at run time.
    pub proof fn lemma_valid(&self)
        requires
            self.inv(),
        ensures
            self@.wf(),
            self@.timesteps <= usize::MAX,
            self@.vocab <= usize::MAX,
    {
    }

    /// Builds a tensor from its scores. A buffer that does not hold
    /// `timesteps * vocab` scores is refused as malformed output.
    pub fn new(timesteps: usize, vocab: usize, data: Vec<u32>) -> (result: OcrResult<ScoreTensor>)
        ensures
            result is Ok <==> data@.len() == timesteps * vocab,
            result matches Ok(tensor) ==> tensor@ == (TensorView {
                timesteps: timesteps as int,
                vocab: vocab as int,
                data: data@,
            }),
            result matches Err(e) ==> e is OutputError,
    {
        assert(timesteps as int * vocab as int <= 0xffff_ffff_ffff_ffff * 0xffff_ffff_ffff_ffff)
            by (nonlinear_arith)
            requires
                0 <= timesteps as int <= 0xffff_ffff_ffff_ffff,
                0 <= vocab as int <= 0xffff_ffff_ffff_ffff,
        ;
        if data.len() as u128 == timesteps as u128 * vocab as u128 {
            Ok(ScoreTensor { timesteps, vocab, data })
        } else {
            Err(
                OcrError::OutputError(
                    String::from_str("model output does not hold one score per class and timestep"),
                ),
            )
        }
    }

    /// Number of timesteps.
    pub fn timesteps(&self) -> (t: usize)
        ensures
            t == self@.timesteps,
    {
        self.timesteps
    }

    /// Number of classes.
    pub fn vocab(&self) -> (v: usize)
        ensures
            v == self@.vocab,
    {
        self.vocab
    }

    /// The class that timestep `t` prefers, with its score.
    pub fn argmax(&self, t: usize) -> (best: (usize, u32))
        requires
            t < self@.timesteps,
        ensures
            (best.0 as int, best.1) == best_class(self@.row(t as int)),
    {
        let total: usize = self.data.len();
        proof {
            use_type_invariant(self);
            assert((t + 1) * self.vocab == t * self.vocab + self.vocab) by (nonlinear_arith);
            assert((t + 1) * self.vocab <= self.timesteps * self.vocab) by (nonlinear_arith)
                requires
                    t + 1 <= self.timesteps,
            ;
            assert(0 <= t * self.vocab) by (nonlinear_arith)
                requires
                    0 <= t,
                    0 <= self.vocab,
            ;
            assert(self.data@.len() == self.timesteps * self.vocab);
            assert(self.data@.len() == total);
        }
        let start: usize = t * self.vocab;
        let ghost row = self@.row(t as int);
        assert(row == self.data@.subrange(start as int, start + self.vocab));
        let mut max_idx: usize = 0;
        let mut max_score: u32 = 0;
        let mut j: usize = 0;
        assert(row.subrange(0, 0) =~= Seq::<u32>::empty());
        while j < self.vocab
            invariant
                j <= self.vocab,
                start == t * self.vocab,
                start + self.vocab <= self.data@.len(),
                self.data@.len() <= usize::MAX,
                row == self.data@.subrange(start as int, start + self.vocab),
                row.len() == self.vocab,
                (max_idx as int, max_score) == best_class(row.subrange(0, j as int)),
            decreases self.vocab - j,
        {
            let score: u32 = self.data[start + j];
            proof {
                let upto = row.subrange(0, j + 1);
                assert(upto.drop_last() =~= row.subrange(0, j as int));
                assert(upto.last() == row[j as int]);
                assert(row[j as int] == self.data@[start + j]);
            }
            if score > max_score {
                max_score = score;
                max_idx = j;
            }
            j += 1;
        }
        assert(row.subrange(0, self.vocab as int) =~= row);
        (max_idx, max_score)
    }
}

/// Settings of a recogniser, as plain values.
pub struct RecView {
    pub keys: Seq<char>,
    pub limits: Thresholds,
}

/// The post-processing of a text recogniser: it turns the scores that the
/// recognition model returns for an image of a line of text into that text.
#[derive(Debug)]
pub struct Rec {
    keys: Vec<char>,
    min_score: u32,
    punct_min_score: u32,
}

impl View for Rec {
    type V = RecView;

    closed spec fn view(&self) -> RecView {
        RecView {
            keys: self.keys@,
            limits: Thresholds {
                min_score: self.min_score as int,
                punct_min_score: self.punct_min_score as int,
            },
        }
    }
}

/// The character table for the contents of a vocabulary file: a blank, the
/// file's characters without line feeds and carriage returns, a blank.
pub open spec fn table_of(content: Seq<char>) -> Seq<char> {
    seq![' '] + content.filter(|c: char| c != '\n' && c != '\r') + seq![' ']
}

/// The size to which an image of `width` by `height` pixels is brought
/// before recognition: images higher than `INPUT_HEIGHT` are scaled to that
/// height, keeping their proportions; others stay as they are.
pub open spec fn input_size_of(width: int, height: int) -> (int, int) {
    if height <= INPUT_HEIGHT {
        (width, height)
    } else {
        (width * INPUT_HEIGHT / height, INPUT_HEIGHT as int)
    }
}

/// The predictions of a sequence of pairs of a class and a score.
pub open spec fn prediction_views(pairs: Seq<(usize, u32)>) -> Seq<Prediction> {
    pairs.map_values(|p: (usize, u32)| (p.0 as int, p.1))
}

/// Reads bytes as UTF-8 with `core::str::from_utf8`. Trusted: the bytes are
/// accepted exactly when they are valid UTF-8, and the text then has them
/// as its encoding.
#[verifier::external_body]
fn utf8_text(bytes: &[u8]) -> (text: Option<&str>)
    ensures
        text is Some <==> vstd::utf8::valid_utf8(bytes@),
        text matches Some(s) ==> vstd::utf8::encode_utf8(s@) == bytes@,
{
    core::str::from_utf8(bytes).ok()
}

impl Rec {
    /// A recogniser for the given character table, with the default
    /// thresholds.
    pub fn new(keys: Vec<char>) -> (rec: Rec)
        ensures
            rec@ == (RecView {
                keys: keys@,
                limits: Thresholds {
                    min_score: MIN_SCORE_DEFAULT as int,
                    punct_min_score: PUNCT_MIN_SCORE_DEFAULT as int,
                },
            }),
    {
        Rec { keys, min_score: MIN_SCORE_DEFAULT, punct_min_score: PUNCT_MIN_SCORE_DEFAULT }
    }

    /// A recogniser for the vocabulary in `content`, one character per line,
    /// with the default thresholds.
    pub fn from_keys_text(content: &str) -> (rec: Rec)
        ensures
            rec@ == (RecView {
                keys: table_of(content@),
                limits: Thresholds {
                    min_score: MIN_SCORE_DEFAULT as int,
                    punct_min_score: PUNCT_MIN_SCORE_DEFAULT as int,
                },
            }),
    {
        let mut keys: Vec<char> = Vec::new();
        keys.push(' ');
        let count: usize = content.unicode_len();
        let ghost keep = |c: char| c != '\n' && c != '\r';
        let mut i: usize = 0;
        assert(content@.subrange(0, 0) =~= Seq::<char>::empty());
        assert(keys@ =~= seq![' '] + content@.subrange(0, 0).filter(keep));
        while i < count
            invariant
                i <= count,
                count == content@.len(),
                keep == |c: char| c != '\n' && c != '\r',
                keys@ == seq![' '] + content@.subrange(0, i as int).filter(keep),
            decreases count - i,
        {
            let c: char = content.get_char(i);
            proof {
                let upto = content@.subrange(0, i + 1);
                let before = content@.subrange(0, i as int);
                assert(upto.drop_last() =~= before);
                assert(upto.last() == c);
                reveal(Seq::filter);
                assert(upto.filter(keep) == if keep(c) {
                    before.filter(keep).push(c)
                } else {
                    before.filter(keep)
                });
            }
            if c != '\n' && c != '\r' {
                keys.push(c);
                proof {
                    let before = content@.subrange(0, i as int);
                    assert(keys@ =~= seq![' '] + before.filter(keep).push(c));
                }
            }
            i += 1;
        }
        assert(content@.subrange(0, count as int) =~= content@);
        keys.push(' ');
        assert(keys@ =~= table_of(content@));
        Self::new(keys)
    }

    /// A recogniser for the vocabulary in `keys_bytes`, which hold UTF-8
    /// text with one character per line. Bytes that are not UTF-8 are
    /// refused as unreadable.
    pub fn from_bytes_with_keys(keys_bytes: &[u8]) -> (result: OcrResult<Rec>)
        ensures
            result is Ok <==> vstd::utf8::valid_utf8(keys_bytes@),
            result matches Ok(rec) ==> rec@ == (RecView {
                keys: table_of(vstd::utf8::decode_utf8(keys_bytes@)),
                limits: Thresholds {
                    min_score: MIN_SCORE_DEFAULT as int,
                    punct_min_score: PUNCT_MIN_SCORE_DEFAULT as int,
                },
            }),
            result matches Err(e) ==> e is IOError,
    {
        match utf8_text(keys_bytes) {
            Some(content) => {
                proof {
                    vstd::utf8::encode_utf8_decode_utf8(content@);
                }
                Ok(Self::from_keys_text(content))
            },
            None => Err(
                OcrError::IOError(String::from_str("vocabulary is not valid UTF-8")),
            ),
        }
    }

    /// The same recogniser with another threshold for characters other than
    /// punctuation.
    pub fn with_min_score(self, min_score: u32) -> (rec: Rec)
        ensures
            rec@ == (RecView {
                keys: self@.keys,
                limits: Thresholds {
                    min_score: min_score as int,
                    punct_min_score: self@.limits.punct_min_score,
                },
            }),
    {
        Rec { keys: self.keys, min_score, punct_min_score: self.punct_min_score }
    }

    /// The same recogniser with another threshold for punctuation.
    pub fn with_punct_min_score(self, punct_min_score: u32) -> (rec: Rec)
        ensures
            rec@ == (RecView {
                keys: self@.keys,
                limits: Thresholds {
                    min_score: self@.limits.min_score,
                    punct_min_score: punct_min_score as int,
                },
            }),
    {
        Rec { keys: self.keys, min_score: self.min_score, punct_min_score }
    }

    /// The same recogniser, for a model that scores `vocab_size` classes.
    /// This is the check to make when the table is loaded: a table that does
    /// not hold one character for each class of the model is refused as
    /// wrong input, before anything is decoded with it.
    pub fn for_vocab_size(self, vocab_size: usize) -> (result: OcrResult<Rec>)
        ensures
            result is Ok <==> vocab_size == self@.keys.len(),
            result matches Ok(rec) ==> rec@ == self@,
            result matches Err(e) ==> e is InputError,
    {
        if self.keys.len() == vocab_size {
            Ok(self)
        } else {
            Err(
                OcrError::InputError(
                    String::from_str("character table does not match the model's classes"),
                ),
            )
        }
    }

    /// The character table.
    pub fn keys(&self) -> (keys: &Vec<char>)
        ensures
            keys@ == self@.keys,
    {
        &self.keys
    }

    /// Threshold for characters other than punctuation, in units of
    /// `1 / SCORE_ONE`.
    pub fn min_score(&self) -> (score: u32)
        ensures
            score == self@.limits.min_score,
    {
        self.min_score
    }

    /// Threshold for punctuation, in units of `1 / SCORE_ONE`.
    pub fn punct_min_score(&self) -> (score: u32)
        ensures
            score == self@.limits.punct_min_score,
    {
        self.punct_min_score
    }

    /// Whether the character is a punctuation mark.
    pub fn is_punctuation(&self, c: char) -> (punctuation: bool)
        ensures
            punctuation == is_punctuation_char(c),
    {
        c == ',' || c == '.' || c == '!' || c == '?' || c == ';' || c == ':' || c == '"' || c
            == '\'' || c == '(' || c == ')' || c == '[' || c == ']' || c == '{' || c == '}' || c
            == '-' || c == '_' || c == '/' || c == '\\' || c == '|' || c == '@' || c == '#' || c
            == '$' || c == '%' || c == '&' || c == '*' || c == '+' || c == '=' || c == '~' || c
            == '\u{ff0c}' || c == '\u{3002}' || c == '\u{ff01}' || c == '\u{ff1f}' || c
            == '\u{ff1b}' || c == '\u{ff1a}' || c == '\u{3001}' || c == '\u{300c}' || c
            == '\u{300d}' || c == '\u{300e}' || c == '\u{300f}' || c == '\u{ff08}' || c
            == '\u{ff09}' || c == '\u{3010}' || c == '\u{3011}' || c == '\u{300a}' || c
            == '\u{300b}' || c == '\u{2014}' || c == '\u{2026}' || c == '\u{00b7}' || c
            == '\u{ff5e}'
    }

    /// The size to which an image is brought before recognition.
    pub fn input_size(width: u32, height: u32) -> (size: (u32, u32))
        ensures
            (size.0 as int, size.1 as int) == input_size_of(width as int, height as int),
    {
        if height <= INPUT_HEIGHT {
            (width, height)
        } else {
            assert(width as int * INPUT_HEIGHT as int <= u32::MAX as int * 48) by (nonlinear_arith)
                requires
                    0 <= width as int <= u32::MAX as int,
                    INPUT_HEIGHT as int == 48,
            ;
            let scaled: u64 = width as u64 * INPUT_HEIGHT as u64 / height as u64;
            proof {
                assert(width as int * 48 / height as int <= width as int) by (nonlinear_arith)
                    requires
                        height as int > 48,
                        width as int >= 0,
                ;
            }
            (scaled as u32, INPUT_HEIGHT)
        }
    }
    /// One timestep of the first pass: `index` is the preferred class and
    /// `score` its score, `last` the character that repeats are measured
    /// against. What is emitted is appended to `results`; the character to
    /// measure the next timestep against is returned.
    pub fn step(&self, last: Option<char>, results: &mut Vec<CharScore>, index: usize, score: u32) -> (next:
        Option<char>)
        ensures
            (PassState { last: next, emitted: final(results)@ }) == decode_step(
                self@.limits,
                self@.keys,
                PassState { last, emitted: old(results)@ },
                (index as int, score),
            ),
    {
        if index > 0 && index < self.keys.len() {
            let c: char = self.keys[index];
            let punctuation: bool = self.is_punctuation(c);
            let threshold: u32 = if punctuation {
                self.punct_min_score
            } else {
                self.min_score
            };
            if score > threshold {
                let repeats: bool = match last {
                    Some(l) => l == c,
                    None => false,
                };
                if !repeats || punctuation {
                    results.push((c, score));
                }
                Some(c)
            } else if punctuation && 5 * (score as u64) > 4 * (self.punct_min_score as u64) {
                results.push((c, score));
                last
            } else {
                None
            }
        } else {
            None
        }
    }

    /// The second pass: of each run of one and the same punctuation mark
    /// only the first occurrence stays.
    pub fn collapse_punctuation(&self, results: &[CharScore]) -> (kept: Vec<CharScore>)
        ensures
            kept@ == collapse(results@),
    {
        let mut kept: Vec<CharScore> = Vec::new();
        let mut i: usize = 0;
        assert(results@.subrange(0, 0) =~= Seq::<CharScore>::empty());
        while i < results.len()
            invariant
                i <= results.len(),
                kept@ == collapse(results@.subrange(0, i as int)),
            decreases results.len() - i,
        {
            let item: CharScore = results[i];
            proof {
                let upto = results@.subrange(0, i + 1);
                assert(upto.drop_last() =~= results@.subrange(0, i as int));
                assert(upto.last() == item);
                if i >= 1 {
                    assert(upto[upto.len() - 2] == results@[i - 1]);
                }
            }
            if i >= 1 && self.is_punctuation(item.0) && results[i - 1].0 == item.0 {
            } else {
                kept.push(item);
            }
            i += 1;
        }
        assert(results@.subrange(0, results.len() as int) =~= results@);
        kept
    }

    /// The characters decoded from the preferred class and its score of each
    /// timestep.
    pub fn decode_predictions(&self, predictions: &[(usize, u32)]) -> (decoded: Vec<CharScore>)
        ensures
            decoded@ == decode_predictions(
                self@.limits,
                self@.keys,
                prediction_views(predictions@),
            ),
    {
        let ghost all = prediction_views(predictions@);
        let mut results: Vec<CharScore> = Vec::new();
        let mut last: Option<char> = None;
        let mut t: usize = 0;
        assert(all.subrange(0, 0) =~= Seq::<Prediction>::empty());
        while t < predictions.len()
            invariant
                t <= predictions.len(),
                all == prediction_views(predictions@),
                (PassState { last, emitted: results@ }) == first_pass(
                    self@.limits,
                    self@.keys,
                    initial_state(),
                    all.subrange(0, t as int),
                ),
            decreases predictions.len() - t,
        {
            let prediction: (usize, u32) = predictions[t];
            proof {
                let upto = all.subrange(0, t + 1);
                assert(upto.drop_last() =~= all.subrange(0, t as int));
                assert(upto.last() == (prediction.0 as int, prediction.1));
            }
            last = self.step(last, &mut results, prediction.0, prediction.1);
            t += 1;
        }
        assert(all.subrange(0, predictions.len() as int) =~= all);
        self.collapse_punctuation(results.as_slice())
    }

    /// The characters of the line of text, each with its score, from the
    /// output of the recognition model. An output whose number of classes
    /// is not the length of the character table is refused for its shape.
    pub fn predict_char_score(&self, output: &ScoreTensor) -> (result: OcrResult<Vec<CharScore>>)
        ensures
            result is Ok <==> output@.vocab == self@.keys.len(),
            result matches Ok(decoded) ==> decoded@ == decode_predictions(
                self@.limits,
                self@.keys,
                output@.predictions(),
            ),
            result matches Err(e) ==> e is ShapeError,
    {
        if output.vocab() != self.keys.len() {
            return Err(
                OcrError::ShapeError(
                    String::from_str("model output does not match the character table"),
                ),
            );
        }
        let mut predictions: Vec<(usize, u32)> = Vec::new();
        let mut t: usize = 0;
        while t < output.timesteps()
            invariant
                t <= output@.timesteps,
                predictions.len() == t,
                forall|k: int|
                    0 <= k < t ==> ((#[trigger] predictions[k]).0 as int, predictions[k].1)
                        == best_class(output@.row(k)),
            decreases output@.timesteps - t,
        {
            let best = output.argmax(t);
            predictions.push(best);
            t += 1;
        }
        assert(prediction_views(predictions@) =~= output@.predictions());
        Ok(self.decode_predictions(predictions.as_slice()))
    }

    /// The text of decoded characters.
    pub fn text(decoded: &[CharScore]) -> (text: String)
        ensures
            text@ == text_of(decoded@),
    {
        let mut text = String::new();
        let mut i: usize = 0;
        while i < decoded.len()
            invariant
                i <= decoded.len(),
                text@ == text_of(decoded@.subrange(0, i as int)),
            decreases decoded.len() - i,
        {
            text.push(decoded[i].0);
            proof {
                assert(text_of(decoded@.subrange(0, i + 1)) =~= text_of(
                    decoded@.subrange(0, i as int),
                ).push(decoded@[i as int].0));
            }
            i += 1;
        }
        assert(decoded@.subrange(0, decoded.len() as int) =~= decoded@);
        text
    }

    /// The confidence of decoded characters: the mean of their scores,
    /// rounded down, and 0 if there are none.
    pub fn confidence(decoded: &[CharScore]) -> (mean: u32)
        ensures
            mean == confidence_of(decoded@),
    {
        if decoded.len() == 0 {
            return 0;
        }
        let mut total: u128 = 0;
        let mut i: usize = 0;
        assert(decoded@.subrange(0, 0) =~= Seq::<CharScore>::empty());
        while i < decoded.len()
            invariant
                i <= decoded.len(),
                total == score_sum(decoded@.subrange(0, i as int)),
                total <= i * u32::MAX,
            decreases decoded.len() - i,
        {
            proof {
                let upto = decoded@.subrange(0, i + 1);
                assert(upto.drop_last() =~= decoded@.subrange(0, i as int));
                assert(upto.last() == decoded@[i as int]);
                assert((i + 1) * u32::MAX == i * u32::MAX + u32::MAX) by (nonlinear_arith);
                assert(i * u32::MAX <= 0xffff_ffff_ffff_ffff * 0xffff_ffff) by (nonlinear_arith)
                    requires
                        0 <= i <= 0xffff_ffff_ffff_ffff,
                ;
            }
            total = total + decoded[i].1 as u128;
            i += 1;
        }
        assert(decoded@.subrange(0, decoded.len() as int) =~= decoded@);
        let count: u128 = decoded.len() as u128;
        proof {
            assert(total as int / count as int <= u32::MAX as int) by (nonlinear_arith)
                requires
                    0 <= total as int <= count as int * u32::MAX as int,
                    count as int > 0,
            ;
        }
        (total / count) as u32
    }

    /// The line of text, from the output of the recognition model.
    pub fn predict_str(&self, output: &ScoreTensor) -> (result: OcrResult<String>)
        ensures
            result is Ok <==> output@.vocab == self@.keys.len(),
            result matches Ok(text) ==> text@ == text_of(
                decode_predictions(self@.limits, self@.keys, output@.predictions()),
            ),
            result matches Err(e) ==> e is ShapeError,
    {
        match self.predict_char_score(output) {
            Ok(decoded) => Ok(Self::text(decoded.as_slice())),
            Err(e) => Err(e),
        }
    }

    /// The line of text and its confidence, from the output of the
    /// recognition model.
    pub fn predict_with_confidence(&self, output: &ScoreTensor) -> (result: OcrResult<
        (String, u32),
    >)
        ensures
            result is Ok <==> output@.vocab == self@.keys.len(),
            result matches Ok(pair) ==> pair.0@ == text_of(
                decode_predictions(self@.limits, self@.keys, output@.predictions()),
            ) && pair.1 == confidence_of(
                decode_predictions(self@.limits, self@.keys, output@.predictions()),
            ),
            result matches Err(e) ==> e is ShapeError,
    {
        match self.predict_char_score(output) {
            Ok(decoded) => {
                let confidence = Self::confidence(decoded.as_slice());
                Ok((Self::text(decoded.as_slice()), confidence))
            },
            Err(e) => Err(e),
        }
    }
}

} // verus!
