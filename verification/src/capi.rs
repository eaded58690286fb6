use crate::decode::SCORE_ONE;
use crate::error::{OcrError, OcrResult};
use crate::region::{RegionView, TextRegion};
use std::collections::HashMap;
use vstd::prelude::*;
use vstd::string::StringExecFns;

verus! {

/// Status given to callers across the foreign-function boundary.
#[derive(Debug, Clone, Copy, PartialEq, Eq, Structural)]
pub enum RocrStatus {
    Success,
    InitError,
    FileNotFound,
    ImageLoadError,
    ProcessError,
    MemoryError,
    InvalidParam,
    NotInitialized,
}

/// The status that stands for an error.
pub open spec fn status_of(error: OcrError) -> RocrStatus {
    match error {
        OcrError::IOError(_) => RocrStatus::FileNotFound,
        OcrError::ImageError(_) => RocrStatus::ImageLoadError,
        OcrError::MNNError(_) => RocrStatus::ProcessError,
        OcrError::EngineError(_) => RocrStatus::NotInitialized,
        OcrError::InputError(_) => RocrStatus::InvalidParam,
        OcrError::OutputError(_) => RocrStatus::ProcessError,
        _ => RocrStatus::ProcessError,
    }
}

impl RocrStatus {
    /// The number by which the status is known on the other side of the
    /// boundary.
    pub open spec fn spec_code(self) -> int {
        match self {
            RocrStatus::Success => 0,
            RocrStatus::InitError => 1,
            RocrStatus::FileNotFound => 2,
            RocrStatus::ImageLoadError => 3,
            RocrStatus::ProcessError => 4,
            RocrStatus::MemoryError => 5,
            RocrStatus::InvalidParam => 6,
            RocrStatus::NotInitialized => 7,
        }
    }

    /// The number by which the status is known on the other side of the
    /// boundary.
    pub fn code(&self) -> (code: u32)
        ensures
            code == self.spec_code(),
    {
        match self {
            RocrStatus::Success => 0,
            RocrStatus::InitError => 1,
            RocrStatus::FileNotFound => 2,
            RocrStatus::ImageLoadError => 3,
            RocrStatus::ProcessError => 4,
            RocrStatus::MemoryError => 5,
            RocrStatus::InvalidParam => 6,
            RocrStatus::NotInitialized => 7,
        }
    }
}

impl From<OcrError> for RocrStatus {
    fn from(error: OcrError) -> (status: Self) {
        match error {
            OcrError::IOError(_) => RocrStatus::FileNotFound,
            OcrError::ImageError(_) => RocrStatus::ImageLoadError,
            OcrError::MNNError(_) => RocrStatus::ProcessError,
            OcrError::EngineError(_) => RocrStatus::NotInitialized,
            OcrError::InputError(_) => RocrStatus::InvalidParam,
            OcrError::OutputError(_) => RocrStatus::ProcessError,
            _ => RocrStatus::ProcessError,
        }
    }
}

impl vstd::std_specs::convert::FromSpecImpl<OcrError> for RocrStatus {
    open spec fn obeys_from_spec() -> bool {
        true
    }

    open spec fn from_spec(error: OcrError) -> RocrStatus {
        status_of(error)
    }
}

/// Name by which a caller across the boundary knows an engine. 0 names no
/// engine.
pub type RocrHandle = usize;

/// The engines that callers across the boundary have created, each under
/// its handle. Handles are given out in rising order, starting with 1, and
/// never twice.
pub struct HandleTable<E> {
    next: usize,
    engines: HashMap<usize, E>,
}

impl<E> View for HandleTable<E> {
    type V = Map<usize, E>;

    closed spec fn view(&self) -> Map<usize, E> {
        self.engines@
    }
}

impl<E> HandleTable<E> {
    /// Every handle in use is one that was given out.
    pub closed spec fn wf(self) -> bool {
        &&& self.next >= 1
        &&& forall|handle: usize| #[trigger]
            self.engines@.contains_key(handle) ==> 1 <= handle < self.next
    }

    /// The handle that the next engine gets, if any is left.
    pub closed spec fn next_handle(self) -> usize {
        self.next
    }

    /// A valid table has no engine under the handle 0 nor under a handle
    /// that is still to be given out.
    pub proof fn lemma_valid(&self)
        requires
            self.wf(),
        ensures
            !self@.contains_key(0),
            self.next_handle() >= 1,
            forall|handle: usize| #[trigger] self@.contains_key(handle) ==> handle < self.next_handle(),
    {
    }

    /// A table without engines.
    pub fn new() -> (table: Self)
        ensures
            table.wf(),
            table@ == Map::<usize, E>::empty(),
            table.next_handle() == 1,
    {
        HandleTable { next: 1, engines: HashMap::new() }
    }

    /// Takes an engine in and gives out its handle, or 0 if the handles are
    /// used up; the engine is then handed back.
    pub fn create(&mut self, engine: E) -> (created: (RocrHandle, Option<E>))
        requires
            old(self).wf(),
        ensures
            final(self).wf(),
            created.0 == 0 <==> old(self).next_handle() == usize::MAX,
            created.0 == 0 ==> created.1 == Some(engine) && final(self)@ == old(self)@
                && final(self).next_handle() == old(self).next_handle(),
            created.0 != 0 ==> created.1 is None && created.0 == old(self).next_handle()
                && !old(self)@.contains_key(created.0) && final(self)@ == old(self)@.insert(
                created.0,
                engine,
            ) && final(self).next_handle() == created.0 + 1,
    {
        broadcast use vstd::std_specs::hash::group_hash_axioms;

        if self.next == usize::MAX {
            return (0, Some(engine));
        }
        let handle: usize = self.next;
        self.next = handle + 1;
        self.engines.insert(handle, engine);
        (handle, None)
    }

    /// Takes the engine of a handle out. The handle 0 and a handle without
    /// an engine are invalid parameters.
    pub fn destroy(&mut self, handle: RocrHandle) -> (removed: (RocrStatus, Option<E>))
        requires
            old(self).wf(),
        ensures
            final(self).wf(),
            removed.0 == (if old(self)@.contains_key(handle) {
                RocrStatus::Success
            } else {
                RocrStatus::InvalidParam
            }),
            removed.1 == (if old(self)@.contains_key(handle) {
                Some(old(self)@[handle])
            } else {
                None
            }),
            final(self)@ == old(self)@.remove(handle),
            final(self).next_handle() == old(self).next_handle(),
    {
        broadcast use vstd::std_specs::hash::group_hash_axioms;

        if handle == 0 {
            assert(self.engines@.remove(handle) =~= self.engines@);
            return (RocrStatus::InvalidParam, None);
        }
        match self.engines.remove(&handle) {
            Some(engine) => (RocrStatus::Success, Some(engine)),
            None => {
                assert(self.engines@ =~= old(self).engines@.remove(handle));
                (RocrStatus::InvalidParam, None)
            },
        }
    }

    /// The engine of a handle. The handle 0 is an invalid parameter; a
    /// handle without an engine names an engine that is not initialised.
    pub fn get(&self, handle: RocrHandle) -> (found: Result<&E, RocrStatus>)
        requires
            self.wf(),
        ensures
            found is Ok <==> self@.contains_key(handle),
            found matches Ok(engine) ==> *engine == self@[handle],
            found matches Err(status) ==> status == (if handle == 0 {
                RocrStatus::InvalidParam
            } else {
                RocrStatus::NotInitialized
            }),
    {
        broadcast use vstd::std_specs::hash::group_hash_axioms;

        if handle == 0 {
            return Err(RocrStatus::InvalidParam);
        }
        match self.engines.get(&handle) {
            Some(engine) => Ok(engine),
            None => Err(RocrStatus::NotInitialized),
        }
    }

    /// Takes all engines out. Their handles are not given out again.
    pub fn cleanup(&mut self)
        requires
            old(self).wf(),
        ensures
            final(self).wf(),
            final(self)@ == Map::<usize, E>::empty(),
            final(self).next_handle() == old(self).next_handle(),
    {
        broadcast use vstd::std_specs::hash::group_hash_axioms;

        self.engines.clear();
    }
}

/// Confidence given to a text whose scores are not known: certainty.
pub const FULL_CONFIDENCE: u32 = SCORE_ONE;

/// Mathematical model of a text box.
pub struct TextBoxView {
    pub text: Seq<char>,
    pub confidence: int,
    pub position: RegionView,
}

/// A text that was read, with the region where it stands.
#[derive(Debug)]
pub struct TextBox {
    pub text: String,
    pub confidence: u32,
    pub left: i32,
    pub top: i32,
    pub width: u32,
    pub height: u32,
}

impl View for TextBox {
    type V = TextBoxView;

    open spec fn view(&self) -> TextBoxView {
        TextBoxView {
            text: self.text@,
            confidence: self.confidence as int,
            position: RegionView {
                left: self.left as int,
                top: self.top as int,
                width: self.width as int,
                height: self.height as int,
            },
        }
    }
}

/// Models of a sequence of text boxes, in order.
pub open spec fn text_box_views(boxes: Seq<TextBox>) -> Seq<TextBoxView> {
    boxes.map_values(|b: TextBox| b@)
}

/// The text boxes of the regions of an image: one for each region whose
/// text could be read, in the order of the regions, with full confidence.
pub open spec fn text_boxes_of(rects: Seq<TextRegion>, outcomes: Seq<OcrResult<String>>) -> Seq<
    TextBoxView,
>
    recommends
        rects.len() == outcomes.len(),
    decreases rects.len(),
{
    if rects.len() == 0 || outcomes.len() == 0 {
        Seq::empty()
    } else {
        let before = text_boxes_of(rects.drop_last(), outcomes.drop_last());
        match outcomes.last() {
            Ok(text) => before.push(
                TextBoxView {
                    text: text@,
                    confidence: FULL_CONFIDENCE as int,
                    position: rects.last()@,
                },
            ),
            Err(_) => before,
        }
    }
}

/// What is said when there are not as many outcomes as regions.
pub open spec fn inconsistent_text() -> Seq<char> {
    "Inconsistent detection results"@
}

/// Puts the texts that were read together with their regions. Regions
/// whose text could not be read are left out. It is an engine error if there
/// are not as many outcomes as regions.
pub fn collect_text_boxes(rects: &[TextRegion], outcomes: &[OcrResult<String>]) -> (result:
    OcrResult<Vec<TextBox>>)
    ensures
        result is Ok <==> rects@.len() == outcomes@.len(),
        result matches Ok(boxes) ==> text_box_views(boxes@) == text_boxes_of(rects@, outcomes@),
        result matches Err(e) ==> e is EngineError && e.detail() == inconsistent_text(),
{
    if rects.len() != outcomes.len() {
        return Err(OcrError::EngineError(String::from_str("Inconsistent detection results")));
    }
    let mut boxes: Vec<TextBox> = Vec::new();
    let mut i: usize = 0;
    assert(rects@.subrange(0, 0) =~= Seq::<TextRegion>::empty());
    assert(text_box_views(boxes@) =~= Seq::<TextBoxView>::empty());
    while i < rects.len()
        invariant
            i <= rects.len(),
            rects.len() == outcomes.len(),
            text_box_views(boxes@) == text_boxes_of(
                rects@.subrange(0, i as int),
                outcomes@.subrange(0, i as int),
            ),
        decreases rects.len() - i,
    {
        proof {
            let r = rects@.subrange(0, i + 1);
            let o = outcomes@.subrange(0, i + 1);
            assert(r.drop_last() =~= rects@.subrange(0, i as int));
            assert(o.drop_last() =~= outcomes@.subrange(0, i as int));
            assert(r.last() == rects@[i as int]);
            assert(o.last() == outcomes@[i as int]);
        }
        match &outcomes[i] {
            Ok(text) => {
                let rect = &rects[i];
                let ghost before = text_box_views(boxes@);
                let text_box = TextBox {
                    text: text.clone(),
                    confidence: FULL_CONFIDENCE,
                    left: rect.left(),
                    top: rect.top(),
                    width: rect.width(),
                    height: rect.height(),
                };
                boxes.push(text_box);
                proof {
                    assert(text_box_views(boxes@) =~= before.push(text_box@));
                }
            },
            Err(_) => {},
        }
        i += 1;
    }
    assert(rects@.subrange(0, rects.len() as int) =~= rects@);
    assert(outcomes@.subrange(0, outcomes.len() as int) =~= outcomes@);
    Ok(boxes)
}

} // verus!
