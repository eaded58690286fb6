use crate::error::{OcrError, OcrResult};
use crate::raster::Image;
use vstd::prelude::*;
use vstd::string::StringExecFns;

verus! {

/// What a caller can ask of an engine. Every request but `Shutdown` carries
/// the image it is about.
#[derive(Debug)]
pub enum OcrRequest {
    /// Find the text regions and cut them out.
    DetectText { image: Image },
    /// Read the line of text in the image.
    RecognizeText { image: Image },
    /// Find the text regions and read each of them.
    ProcessOcr { image: Image },
    /// Find the text regions.
    GetTextRects { image: Image },
    /// Find the text regions and cut them out.
    GetTextImages { image: Image },
    /// Stop serving.
    Shutdown,
}

/// Whether the worker of an engine still serves requests.
#[derive(Clone, Copy, Debug, PartialEq, Eq, Structural)]
pub enum WorkerState {
    Running,
    Stopped,
}

/// What the worker does for a request.
#[derive(Debug)]
pub enum WorkerTask {
    /// Run detection on the image and reply with the text regions cut out.
    CropRegions { image: Image },
    /// Run detection on the image and reply with the text regions.
    FindRegions { image: Image },
    /// Run recognition on the image and reply with its text.
    ReadLine { image: Image },
    /// Run detection on the image, then recognition on each region, and
    /// reply with the texts.
    ReadAll { image: Image },
    /// Leave the loop without a reply.
    Exit,
    /// Nothing: the worker has stopped.
    Nothing,
}

/// The task for a request in a given state, and the state after it.
pub open spec fn dispatch_spec(state: WorkerState, request: OcrRequest) -> (WorkerState, WorkerTask) {
    match state {
        WorkerState::Stopped => (WorkerState::Stopped, WorkerTask::Nothing),
        WorkerState::Running => match request {
            OcrRequest::DetectText { image } => (
                WorkerState::Running,
                WorkerTask::CropRegions { image },
            ),
            OcrRequest::GetTextImages { image } => (
                WorkerState::Running,
                WorkerTask::CropRegions { image },
            ),
            OcrRequest::GetTextRects { image } => (
                WorkerState::Running,
                WorkerTask::FindRegions { image },
            ),
            OcrRequest::RecognizeText { image } => (
                WorkerState::Running,
                WorkerTask::ReadLine { image },
            ),
            OcrRequest::ProcessOcr { image } => (WorkerState::Running, WorkerTask::ReadAll { image }),
            OcrRequest::Shutdown => (WorkerState::Stopped, WorkerTask::Exit),
        },
    }
}

/// Whether a task ends with a reply to the caller.
pub open spec fn replies(task: WorkerTask) -> bool {
    !(task is Exit) && !(task is Nothing)
}

/// The image that a request carries, if it carries one.
pub open spec fn request_image(request: OcrRequest) -> Option<Image> {
    match request {
        OcrRequest::DetectText { image } => Some(image),
        OcrRequest::RecognizeText { image } => Some(image),
        OcrRequest::ProcessOcr { image } => Some(image),
        OcrRequest::GetTextRects { image } => Some(image),
        OcrRequest::GetTextImages { image } => Some(image),
        OcrRequest::Shutdown => None,
    }
}

/// The image that a task works on, if it works on one.
pub open spec fn task_image(task: WorkerTask) -> Option<Image> {
    match task {
        WorkerTask::CropRegions { image } => Some(image),
        WorkerTask::FindRegions { image } => Some(image),
        WorkerTask::ReadLine { image } => Some(image),
        WorkerTask::ReadAll { image } => Some(image),
        WorkerTask::Exit => None,
        WorkerTask::Nothing => None,
    }
}

/// The task of a running worker works on the image of the request that it
/// was made for, whatever was served before.
pub proof fn lemma_task_is_for_its_request(request: OcrRequest)
    ensures
        task_image(dispatch_spec(WorkerState::Running, request).1) == request_image(request),
{
}

/// A worker that has stopped stays stopped and never replies again.
pub proof fn lemma_stopped_is_final(request: OcrRequest)
    ensures
        dispatch_spec(WorkerState::Stopped, request).0 == WorkerState::Stopped,
        !replies(dispatch_spec(WorkerState::Stopped, request).1),
{
}

/// A running worker replies to every request but `Shutdown`, after which it
/// has stopped.
pub proof fn lemma_running_serves(request: OcrRequest)
    ensures
        replies(dispatch_spec(WorkerState::Running, request).1) <==> !(request is Shutdown),
        dispatch_spec(WorkerState::Running, request).0 == WorkerState::Stopped <==> request
            is Shutdown,
{
}

/// The state of a worker after a sequence of requests.
pub open spec fn state_after(state: WorkerState, requests: Seq<OcrRequest>) -> WorkerState
    decreases requests.len(),
{
    if requests.len() == 0 {
        state
    } else {
        dispatch_spec(state_after(state, requests.drop_last()), requests.last()).0
    }
}

/// Once `Shutdown` has been among the requests, the worker has stopped, and
/// whatever is queued behind it gets no reply.
pub proof fn lemma_no_reply_after_shutdown(requests: Seq<OcrRequest>, k: int)
    requires
        0 <= k < requests.len(),
        requests[k] is Shutdown,
    ensures
        state_after(WorkerState::Running, requests) == WorkerState::Stopped,
        forall|later: OcrRequest|
            !replies(
                #[trigger] dispatch_spec(state_after(WorkerState::Running, requests), later).1,
            ),
    decreases requests.len(),
{
    let front = requests.drop_last();
    if k < requests.len() - 1 {
        assert(front[k] == requests[k]);
        lemma_no_reply_after_shutdown(front, k);
    } else {
        assert(requests.last() == requests[k]);
    }
}

/// How far a batch of recognitions has come: the texts read so far, or the
/// failure that ended it.
pub struct BatchView {
    pub texts: Seq<Seq<char>>,
    pub failure: Option<OcrError>,
}

/// The batch after one more recognition has ended with `outcome`. A text is
/// added to the texts. A failure ends the batch. A batch that has ended
/// stays as it is.
pub open spec fn batch_after(batch: BatchView, outcome: OcrResult<String>) -> BatchView {
    if batch.failure is Some {
        batch
    } else {
        match outcome {
            Ok(text) => BatchView { texts: batch.texts.push(text@), failure: None },
            Err(e) => BatchView { texts: batch.texts, failure: Some(e) },
        }
    }
}

/// The batch after a sequence of recognitions.
pub open spec fn batch_of(outcomes: Seq<OcrResult<String>>) -> BatchView
    decreases outcomes.len(),
{
    if outcomes.len() == 0 {
        BatchView { texts: Seq::empty(), failure: None }
    } else {
        batch_after(batch_of(outcomes.drop_last()), outcomes.last())
    }
}

/// A batch fails with the first failure among its recognitions, and with
/// none it holds the text of each, in order.
pub proof fn lemma_batch_of(outcomes: Seq<OcrResult<String>>)
    ensures
        batch_of(outcomes).failure is None <==> forall|i: int|
            0 <= i < outcomes.len() ==> (#[trigger] outcomes[i]) is Ok,
        batch_of(outcomes).failure is None ==> batch_of(outcomes).texts.len() == outcomes.len()
            && forall|i: int|
            0 <= i < outcomes.len() ==> #[trigger] batch_of(outcomes).texts[i] == outcomes[i]->Ok_0@,
        batch_of(outcomes).failure is Some ==> exists|k: int|
            0 <= k < outcomes.len() && #[trigger] outcomes[k] == Err::<String, OcrError>(
                batch_of(outcomes).failure->0,
            ) && forall|i: int| 0 <= i < k ==> (#[trigger] outcomes[i]) is Ok,
    decreases outcomes.len(),
{
    if outcomes.len() > 0 {
        let front = outcomes.drop_last();
        lemma_batch_of(front);
        let n = outcomes.len() - 1;
        assert(outcomes.last() == outcomes[n]);
        assert forall|i: int| 0 <= i < front.len() implies front[i] == outcomes[i] by {}
        if batch_of(front).failure is Some {
            let k = choose|k: int|
                0 <= k < front.len() && #[trigger] front[k] == Err::<String, OcrError>(
                    batch_of(front).failure->0,
                ) && forall|i: int| 0 <= i < k ==> (#[trigger] front[i]) is Ok;
            assert(outcomes[k] == front[k]);
            assert forall|i: int| 0 <= i < k implies (#[trigger] outcomes[i]) is Ok by {
                assert(front[i] is Ok);
            }
            assert(!(outcomes[k] is Ok));
        } else {
            assert forall|i: int| 0 <= i < front.len() implies (#[trigger] outcomes[i]) is Ok by {
                assert(front[i] is Ok);
            }
            match outcomes.last() {
                Ok(text) => {
                    assert forall|i: int| 0 <= i < outcomes.len() implies #[trigger] batch_of(
                        outcomes,
                    ).texts[i] == outcomes[i]->Ok_0@ by {
                        if i < n {
                            assert(batch_of(front).texts[i] == front[i]->Ok_0@);
                        }
                    }
                },
                Err(e) => {
                    assert(outcomes[n] == Err::<String, OcrError>(e));
                },
            }
        }
    }
}

/// The texts of a sequence of strings.
pub open spec fn string_views(texts: Seq<String>) -> Seq<Seq<char>> {
    texts.map_values(|t: String| t@)
}

/// The recognitions of the regions of one image, taken one after the other
/// until one fails.
#[derive(Debug)]
pub struct RecognitionBatch {
    texts: Vec<String>,
    failure: Option<OcrError>,
}

impl View for RecognitionBatch {
    type V = BatchView;

    closed spec fn view(&self) -> BatchView {
        BatchView { texts: string_views(self.texts@), failure: self.failure }
    }
}

impl RecognitionBatch {
    /// A batch in which nothing has been recognised yet.
    pub fn new() -> (batch: RecognitionBatch)
        ensures
            batch@ == (BatchView { texts: Seq::empty(), failure: None }),
    {
        let batch = RecognitionBatch { texts: Vec::new(), failure: None };
        assert(string_views(batch.texts@) =~= Seq::<Seq<char>>::empty());
        batch
    }

    /// Takes in the outcome of the next recognition and says whether the
    /// batch goes on.
    pub fn record(&mut self, outcome: OcrResult<String>) -> (go_on: bool)
        ensures
            final(self)@ == batch_after(old(self)@, outcome),
            go_on == final(self)@.failure is None,
    {
        if self.failure.is_some() {
            return false;
        }
        match outcome {
            Ok(text) => {
                let ghost before = string_views(self.texts@);
                self.texts.push(text);
                assert(string_views(self.texts@) =~= before.push(text@));
                true
            },
            Err(e) => {
                self.failure = Some(e);
                false
            },
        }
    }

    /// What the batch replies: the texts, or the failure alone.
    pub fn finish(self) -> (result: OcrResult<Vec<String>>)
        ensures
            self@.failure matches Some(e) ==> result == Err::<Vec<String>, OcrError>(e),
            self@.failure is None ==> result is Ok && string_views(result->Ok_0@) == self@.texts,
    {
        match self.failure {
            Some(e) => Err(e),
            None => Ok(self.texts),
        }
    }
}

/// What is said of an engine whose worker has ended.
pub open spec fn terminated_text() -> Seq<char> {
    "OCR engine worker thread has terminated"@
}

/// What is said when no reply came.
pub open spec fn no_reply_text() -> Seq<char> {
    "Failed to receive result from worker thread"@
}

/// What is said of a manager without an engine.
pub open spec fn not_initialized_text() -> Seq<char> {
    "OCR engine not initialized"@
}

/// What is said when the manager's lock cannot be taken.
pub open spec fn lock_failed_text() -> Seq<char> {
    "Failed to acquire lock on OCR engine manager"@
}

/// Whether the error is an engine error with the given description.
pub open spec fn is_engine_error(error: OcrError, text: Seq<char>) -> bool {
    error is EngineError && error.detail() == text
}

impl WorkerState {
    /// The task for a request, and the state after it. A running worker
    /// serves every request and stops at `Shutdown`; a stopped one does
    /// nothing.
    pub fn dispatch(self, request: OcrRequest) -> (next: (WorkerState, WorkerTask))
        ensures
            next == dispatch_spec(self, request),
    {
        match self {
            WorkerState::Stopped => (WorkerState::Stopped, WorkerTask::Nothing),
            WorkerState::Running => match request {
                OcrRequest::DetectText { image } => (
                    WorkerState::Running,
                    WorkerTask::CropRegions { image },
                ),
                OcrRequest::GetTextImages { image } => (
                    WorkerState::Running,
                    WorkerTask::CropRegions { image },
                ),
                OcrRequest::GetTextRects { image } => (
                    WorkerState::Running,
                    WorkerTask::FindRegions { image },
                ),
                OcrRequest::RecognizeText { image } => (
                    WorkerState::Running,
                    WorkerTask::ReadLine { image },
                ),
                OcrRequest::ProcessOcr { image } => (
                    WorkerState::Running,
                    WorkerTask::ReadAll { image },
                ),
                OcrRequest::Shutdown => (WorkerState::Stopped, WorkerTask::Exit),
            },
        }
    }
}

/// What a caller gets for a request: an engine error if the request could
/// not be queued because the worker has ended, an engine error if no reply
/// came, the worker's reply otherwise.
pub fn reply_for<T>(sent: bool, received: Option<OcrResult<T>>) -> (result: OcrResult<T>)
    ensures
        !sent ==> result is Err && is_engine_error(result->Err_0, terminated_text()),
        sent && received is None ==> result is Err && is_engine_error(
            result->Err_0,
            no_reply_text(),
        ),
        sent && received is Some ==> result == received->0,
{
    if !sent {
        Err(OcrError::EngineError(String::from_str("OCR engine worker thread has terminated")))
    } else {
        match received {
            Some(reply) => reply,
            None => Err(
                OcrError::EngineError(
                    String::from_str("Failed to receive result from worker thread"),
                ),
            ),
        }
    }
}

/// A slot that holds at most one engine. It starts empty; initialising it
/// puts an engine in, in place of the one that was there.
pub struct OcrEngineManager<E> {
    slot: Option<E>,
}

impl<E> View for OcrEngineManager<E> {
    type V = Option<E>;

    closed spec fn view(&self) -> Option<E> {
        self.slot
    }
}

impl<E> OcrEngineManager<E> {
    /// A manager without an engine.
    pub fn new() -> (manager: Self)
        ensures
            manager@ is None,
    {
        OcrEngineManager { slot: None }
    }

    /// Puts `engine` into the slot and hands back the engine that was there.
    pub fn initialize(&mut self, engine: E) -> (previous: Option<E>)
        ensures
            final(self)@ == Some(engine),
            previous == old(self)@,
    {
        let previous = self.slot.take();
        self.slot = Some(engine);
        previous
    }

    /// The engine in the slot, or an engine error if there is none.
    pub fn get_instance(&self) -> (result: OcrResult<&E>)
        ensures
            result is Ok <==> self@ is Some,
            result matches Ok(engine) ==> *engine == self@->0,
            result matches Err(e) ==> is_engine_error(e, not_initialized_text()),
    {
        match &self.slot {
            Some(engine) => Ok(engine),
            None => Err(OcrError::EngineError(String::from_str("OCR engine not initialized"))),
        }
    }

    /// The error of a caller that could not take the manager's lock.
    pub fn lock_failed() -> (error: OcrError)
        ensures
            is_engine_error(error, lock_failed_text()),
    {
        OcrError::EngineError(String::from_str("Failed to acquire lock on OCR engine manager"))
    }
}

} // verus!
