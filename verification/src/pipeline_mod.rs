//! Composable pipeline: several operations over the same input.
use vstd::prelude::*;
use crate::classify::CharClassifier;
use crate::lines;
use crate::lines::line_ranges;
use crate::numbers;
use crate::numbers::{extract_numbers, NumberSpan};
use crate::positions;
use crate::utf8::validate_utf8;

verus! {

/// Stages that can be enabled in a pipeline.
#[derive(Clone, Copy, PartialEq, Eq, Structural, Debug)]
pub enum Stage {
    /// UTF-8 validation.
    ValidateUtf8,
    /// Line splitting.
    SplitLines,
    /// Character classification.
    Classify,
    /// Number extraction.
    ExtractNumbers,
}

/// Creates a new pipeline builder with no stages.
pub fn pipeline() -> (b: PipelineBuilder)
    ensures
        b.stages_view() == Seq::<Stage>::empty(),
        b.chars_view() == Seq::<u8>::empty(),
{
    PipelineBuilder { stages: Vec::new(), classify_chars: Vec::new() }
}

/// Builder for a pipeline.
pub struct PipelineBuilder {
    stages: Vec<Stage>,
    classify_chars: Vec<u8>,
}

impl PipelineBuilder {
    /// The stages added so far, in order.
    pub closed spec fn stages_view(&self) -> Seq<Stage> {
        self.stages@
    }

    /// The characters that classification will look for.
    pub closed spec fn chars_view(&self) -> Seq<u8> {
        self.classify_chars@
    }

    /// Adds UTF-8 validation to the pipeline.
    pub fn validate_utf8(self) -> (b: Self)
        ensures
            b.stages_view() == self.stages_view().push(Stage::ValidateUtf8),
            b.chars_view() == self.chars_view(),
    {
        let mut b = self;
        b.stages.push(Stage::ValidateUtf8);
        b
    }

    /// Adds line splitting to the pipeline.
    pub fn split_lines(self) -> (b: Self)
        ensures
            b.stages_view() == self.stages_view().push(Stage::SplitLines),
            b.chars_view() == self.chars_view(),
    {
        let mut b = self;
        b.stages.push(Stage::SplitLines);
        b
    }

    /// Adds character classification to the pipeline; the characters
    /// replace those of any earlier classification stage.
    pub fn classify(self, chars: &[u8]) -> (b: Self)
        ensures
            b.stages_view() == self.stages_view().push(Stage::Classify),
            b.chars_view() == chars@,
    {
        let mut b = self;
        b.stages.push(Stage::Classify);
        b.classify_chars = vstd::slice::slice_to_vec(chars);
        b
    }

    /// Adds number extraction to the pipeline.
    pub fn extract_numbers(self) -> (b: Self)
        ensures
            b.stages_view() == self.stages_view().push(Stage::ExtractNumbers),
            b.chars_view() == self.chars_view(),
    {
        let mut b = self;
        b.stages.push(Stage::ExtractNumbers);
        b
    }

    /// Builds the pipeline; a classifier is made when a classification
    /// stage was added.
    pub fn build(self) -> (p: Pipeline)
        ensures
            p.wf(),
            p.stages_view() == self.stages_view(),
            p.stages_view().contains(Stage::Classify) ==> forall|b: u8| #[trigger]
                p.classifier_view().matches(b) <==> (b < 128 && self.chars_view().contains(b)),
    {
        let mut has_classify = false;
        let mut i: usize = 0;
        while i < self.stages.len()
            invariant
                i <= self.stages@.len(),
                has_classify <==> self.stages@.take(i as int).contains(Stage::Classify),
            decreases self.stages@.len() - i,
        {
            proof {
                lemma_take_contains(self.stages@, i as int);
            }
            if self.stages[i] == Stage::Classify {
                has_classify = true;
            }
            i = i + 1;
        }
        assert(self.stages@.take(self.stages@.len() as int) =~= self.stages@);
        let classifier = if has_classify {
            Some(CharClassifier::new(self.classify_chars.as_slice()))
        } else {
            None
        };
        Pipeline { stages: self.stages, classifier }
    }
}

proof fn lemma_take_contains(st: Seq<Stage>, i: int)
    requires
        0 <= i < st.len(),
    ensures
        forall|x: Stage| #[trigger]
            st.take(i + 1).contains(x) <==> (st.take(i).contains(x) || x == st[i]),
{
    let before = st.take(i);
    let after = st.take(i + 1);
    assert forall|x: Stage| #[trigger] after.contains(x) <==> (before.contains(x) || x == st[i]) by {
        if after.contains(x) {
            let k = choose|k: int| 0 <= k < after.len() && after[k] == x;
            if k < before.len() {
                assert(before[k] == x);
            }
        }
        if before.contains(x) {
            let k = choose|k: int| 0 <= k < before.len() && before[k] == x;
            assert(after[k] == x);
        }
        if x == st[i] {
            assert(after[i] == x);
        }
    }
}

/// A pipeline that runs its stages over some data.
pub struct Pipeline {
    stages: Vec<Stage>,
    classifier: Option<CharClassifier>,
}

/// Results from a pipeline execution.
pub struct PipelineResults {
    /// Line ranges `(start, end)` if line splitting was enabled.
    pub lines: Vec<(usize, usize)>,
    /// Matched character positions if classification was enabled.
    pub classifications: Vec<usize>,
    /// Extracted numbers if number extraction was enabled.
    pub numbers: Vec<NumberSpan>,
    /// Whether the data is valid UTF-8 (true if validation wasn't enabled).
    pub utf8_valid: bool,
}

impl Pipeline {
    /// The stages, in order.
    pub closed spec fn stages_view(&self) -> Seq<Stage> {
        self.stages@
    }

    /// The classifier of the classification stage.
    pub closed spec fn classifier_view(&self) -> CharClassifier {
        self.classifier->0
    }

    /// A classifier is present when there is a classification stage.
    pub closed spec fn wf(&self) -> bool {
        self.stages@.contains(Stage::Classify) ==> self.classifier is Some
    }

    /// Runs every stage over `data`. A stage that was not added leaves its
    /// result empty (and `utf8_valid` true).
    pub fn process(&self, data: &[u8]) -> (r: PipelineResults)
        requires
            self.wf(),
        ensures
            r.utf8_valid == (self.stages_view().contains(Stage::ValidateUtf8) ==> vstd::utf8::valid_utf8(data@)),
            r.lines@.map_values(|p: (usize, usize)| lines::pair_view(p)) == if self.stages_view().contains(
                Stage::SplitLines,
            ) {
                lines::line_ranges_spec(data@)
            } else {
                Seq::empty()
            },
            positions::offsets_view(r.classifications@) == if self.stages_view().contains(Stage::Classify) {
                positions::positions_where(data@, self.classifier_view().match_pred())
            } else {
                Seq::empty()
            },
            r.numbers@ == if self.stages_view().contains(Stage::ExtractNumbers) {
                numbers::extract_spec(data@)
            } else {
                Seq::empty()
            },
    {
        let mut results = PipelineResults {
            lines: Vec::new(),
            classifications: Vec::new(),
            numbers: Vec::new(),
            utf8_valid: true,
        };
        let ghost st = self.stages@;
        let mut i: usize = 0;
        assert(results.lines@.map_values(|p: (usize, usize)| lines::pair_view(p)) =~= Seq::<(int, int)>::empty());
        assert(positions::offsets_view(results.classifications@) =~= Seq::<int>::empty());
        while i < self.stages.len()
            invariant
                i <= st.len(),
                st == self.stages@,
                self.wf(),
                results.utf8_valid == (st.take(i as int).contains(Stage::ValidateUtf8)
                    ==> vstd::utf8::valid_utf8(data@)),
                results.lines@.map_values(|p: (usize, usize)| lines::pair_view(p)) == if st.take(
                    i as int,
                ).contains(Stage::SplitLines) {
                    lines::line_ranges_spec(data@)
                } else {
                    Seq::empty()
                },
                positions::offsets_view(results.classifications@) == if st.take(i as int).contains(
                    Stage::Classify,
                ) {
                    positions::positions_where(data@, self.classifier_view().match_pred())
                } else {
                    Seq::empty()
                },
                results.numbers@ == if st.take(i as int).contains(Stage::ExtractNumbers) {
                    numbers::extract_spec(data@)
                } else {
                    Seq::empty()
                },
            decreases st.len() - i,
        {
            let stage = self.stages[i];
            proof {
                lemma_take_contains(st, i as int);
            }
            match stage {
                Stage::ValidateUtf8 => {
                    results.utf8_valid = validate_utf8(data).is_ok();
                },
                Stage::SplitLines => {
                    results.lines = line_ranges(data).collect();
                },
                Stage::Classify => {
                    assert(st.contains(Stage::Classify)) by {
                        assert(st[i as int] == Stage::Classify);
                    }
                    match &self.classifier {
                        Some(classifier) => {
                            results.classifications = classifier.find_all(data);
                        },
                        None => {},
                    }
                },
                Stage::ExtractNumbers => {
                    results.numbers = extract_numbers(data);
                },
            }
            i = i + 1;
        }
        assert(st.take(st.len() as int) =~= st);
        results
    }
}

} // verus!
