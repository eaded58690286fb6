use rust_paddle_ocr::capi::{collect_text_boxes, HandleTable, RocrStatus};
use rust_paddle_ocr::engine::{
    reply_for, OcrEngineManager, OcrRequest, RecognitionBatch, WorkerState, WorkerTask,
};
use rust_paddle_ocr::error::OcrError;
use rust_paddle_ocr::raster::Image;
use rust_paddle_ocr::region::TextRegion;

fn image(tag: u8) -> Image {
    Image::from_raw(1, 1, 3, vec![tag, tag, tag]).unwrap()
}

#[test]
fn running_worker_serves_each_request() {
    let (state, task) = WorkerState::Running.dispatch(OcrRequest::DetectText { image: image(1) });
    assert_eq!(state, WorkerState::Running);
    assert!(matches!(task, WorkerTask::CropRegions { image } if image.as_raw()[0] == 1));
    let (state, task) = state.dispatch(OcrRequest::GetTextImages { image: image(2) });
    assert_eq!(state, WorkerState::Running);
    assert!(matches!(task, WorkerTask::CropRegions { image } if image.as_raw()[0] == 2));
    let (state, task) = state.dispatch(OcrRequest::GetTextRects { image: image(3) });
    assert_eq!(state, WorkerState::Running);
    assert!(matches!(task, WorkerTask::FindRegions { image } if image.as_raw()[0] == 3));
    let (state, task) = state.dispatch(OcrRequest::RecognizeText { image: image(4) });
    assert_eq!(state, WorkerState::Running);
    assert!(matches!(task, WorkerTask::ReadLine { image } if image.as_raw()[0] == 4));
    let (state, task) = state.dispatch(OcrRequest::ProcessOcr { image: image(5) });
    assert_eq!(state, WorkerState::Running);
    assert!(matches!(task, WorkerTask::ReadAll { image } if image.as_raw()[0] == 5));
}

#[test]
fn worker_stops_at_shutdown() {
    let (state, task) = WorkerState::Running.dispatch(OcrRequest::Shutdown);
    assert_eq!(state, WorkerState::Stopped);
    assert!(matches!(task, WorkerTask::Exit));
    let (state, task) = state.dispatch(OcrRequest::ProcessOcr { image: image(1) });
    assert_eq!(state, WorkerState::Stopped);
    assert!(matches!(task, WorkerTask::Nothing));
    let (state, task) = state.dispatch(OcrRequest::Shutdown);
    assert_eq!(state, WorkerState::Stopped);
    assert!(matches!(task, WorkerTask::Nothing));
}

#[test]
fn batch_collects_the_texts() {
    let mut batch = RecognitionBatch::new();
    assert!(batch.record(Ok("one".to_string())));
    assert!(batch.record(Ok("two".to_string())));
    assert_eq!(batch.finish().unwrap(), vec!["one".to_string(), "two".to_string()]);
    assert_eq!(RecognitionBatch::new().finish().unwrap(), Vec::<String>::new());
}

#[test]
fn batch_ends_with_the_first_failure() {
    let mut batch = RecognitionBatch::new();
    assert!(batch.record(Ok("one".to_string())));
    assert!(!batch.record(Err(OcrError::MNNError("first".to_string()))));
    assert!(!batch.record(Ok("three".to_string())));
    assert!(!batch.record(Err(OcrError::ShapeError("second".to_string()))));
    match batch.finish() {
        Err(OcrError::MNNError(text)) => assert_eq!(text, "first"),
        _ => panic!("the batch has failed"),
    }
}

#[test]
fn replies_and_their_absence() {
    let reply: Result<u8, OcrError> = reply_for(true, Some(Ok(7)));
    assert_eq!(reply.unwrap(), 7);
    let reply: Result<u8, OcrError> = reply_for(true, Some(Err(OcrError::InferenceError("x".to_string()))));
    assert_eq!(reply.unwrap_err().message(), "Model inference error: x");
    let reply: Result<u8, OcrError> = reply_for(false, Some(Ok(7)));
    assert_eq!(
        reply.unwrap_err().message(),
        "Engine error: OCR engine worker thread has terminated"
    );
    let reply: Result<u8, OcrError> = reply_for(false, None);
    assert_eq!(
        reply.unwrap_err().message(),
        "Engine error: OCR engine worker thread has terminated"
    );
    let reply: Result<u8, OcrError> = reply_for(true, None);
    assert_eq!(
        reply.unwrap_err().message(),
        "Engine error: Failed to receive result from worker thread"
    );
}

#[test]
fn manager_holds_one_engine() {
    let mut manager: OcrEngineManager<u32> = OcrEngineManager::new();
    assert_eq!(
        manager.get_instance().unwrap_err().message(),
        "Engine error: OCR engine not initialized"
    );
    assert_eq!(manager.initialize(1), None);
    assert_eq!(manager.get_instance().unwrap(), &1);
    assert_eq!(manager.initialize(2), Some(1));
    assert_eq!(manager.get_instance().unwrap(), &2);
    assert_eq!(
        OcrEngineManager::<u32>::lock_failed().message(),
        "Engine error: Failed to acquire lock on OCR engine manager"
    );
}

#[test]
fn error_messages() {
    let text = || "why".to_string();
    assert_eq!(OcrError::IOError(text()).message(), "IO error: why");
    assert_eq!(OcrError::ImageError(text()).message(), "Image processing error: why");
    assert_eq!(OcrError::ArgError(text()).message(), "Command line argument error: why");
    assert_eq!(OcrError::JsonError(text()).message(), "JSON error: why");
    assert_eq!(OcrError::MNNError(text()).message(), "MNN error: why");
    assert_eq!(OcrError::ShapeError(text()).message(), "Shape error: why");
    assert_eq!(OcrError::InputError(text()).message(), "Input tensor data error: why");
    assert_eq!(OcrError::OutputError(text()).message(), "Output tensor data error: why");
    assert_eq!(OcrError::InferenceError(text()).message(), "Model inference error: why");
    assert_eq!(OcrError::EngineError(text()).message(), "Engine error: why");
    assert_eq!(OcrError::ThreadError(text()).message(), "Thread error: why");
}

#[test]
fn statuses_of_errors() {
    let text = || "why".to_string();
    assert_eq!(RocrStatus::from(OcrError::IOError(text())), RocrStatus::FileNotFound);
    assert_eq!(RocrStatus::from(OcrError::ImageError(text())), RocrStatus::ImageLoadError);
    assert_eq!(RocrStatus::from(OcrError::MNNError(text())), RocrStatus::ProcessError);
    assert_eq!(RocrStatus::from(OcrError::EngineError(text())), RocrStatus::NotInitialized);
    assert_eq!(RocrStatus::from(OcrError::InputError(text())), RocrStatus::InvalidParam);
    assert_eq!(RocrStatus::from(OcrError::OutputError(text())), RocrStatus::ProcessError);
    assert_eq!(RocrStatus::from(OcrError::ArgError(text())), RocrStatus::ProcessError);
    assert_eq!(RocrStatus::from(OcrError::JsonError(text())), RocrStatus::ProcessError);
    assert_eq!(RocrStatus::from(OcrError::ShapeError(text())), RocrStatus::ProcessError);
    assert_eq!(RocrStatus::from(OcrError::InferenceError(text())), RocrStatus::ProcessError);
    assert_eq!(RocrStatus::from(OcrError::ThreadError(text())), RocrStatus::ProcessError);
}

#[test]
fn status_codes() {
    assert_eq!(RocrStatus::Success.code(), 0);
    assert_eq!(RocrStatus::InitError.code(), 1);
    assert_eq!(RocrStatus::FileNotFound.code(), 2);
    assert_eq!(RocrStatus::ImageLoadError.code(), 3);
    assert_eq!(RocrStatus::ProcessError.code(), 4);
    assert_eq!(RocrStatus::MemoryError.code(), 5);
    assert_eq!(RocrStatus::InvalidParam.code(), 6);
    assert_eq!(RocrStatus::NotInitialized.code(), 7);
}

#[test]
fn handles_start_at_one_and_are_not_given_twice() {
    let mut table: HandleTable<&str> = HandleTable::new();
    assert_eq!(table.create("first"), (1, None));
    assert_eq!(table.create("second"), (2, None));
    assert_eq!(table.get(1), Ok(&"first"));
    assert_eq!(table.get(2), Ok(&"second"));
    assert_eq!(table.destroy(1), (RocrStatus::Success, Some("first")));
    assert_eq!(table.create("third"), (3, None));
    assert_eq!(table.get(1), Err(RocrStatus::NotInitialized));
    assert_eq!(table.get(3), Ok(&"third"));
}

#[test]
fn handles_without_an_engine() {
    let mut table: HandleTable<u8> = HandleTable::new();
    assert_eq!(table.get(0), Err(RocrStatus::InvalidParam));
    assert_eq!(table.get(1), Err(RocrStatus::NotInitialized));
    assert_eq!(table.destroy(0), (RocrStatus::InvalidParam, None));
    assert_eq!(table.destroy(1), (RocrStatus::InvalidParam, None));
    assert_eq!(table.create(9), (1, None));
    assert_eq!(table.destroy(1), (RocrStatus::Success, Some(9)));
    assert_eq!(table.destroy(1), (RocrStatus::InvalidParam, None));
    assert_eq!(table.create(8), (2, None));
    assert_eq!(table.create(7), (3, None));
    table.cleanup();
    assert_eq!(table.get(2), Err(RocrStatus::NotInitialized));
    assert_eq!(table.get(3), Err(RocrStatus::NotInitialized));
    assert_eq!(table.create(6), (4, None));
}

#[test]
fn text_boxes_of_the_texts_that_were_read() {
    let rects = vec![
        TextRegion::new(1, 2, 3, 4).unwrap(),
        TextRegion::new(5, 6, 7, 8).unwrap(),
        TextRegion::new(9, 10, 11, 12).unwrap(),
    ];
    let outcomes = vec![
        Ok("one".to_string()),
        Err(OcrError::MNNError("failed".to_string())),
        Ok("three".to_string()),
    ];
    let boxes = collect_text_boxes(&rects, &outcomes).unwrap();
    assert_eq!(boxes.len(), 2);
    assert_eq!(boxes[0].text, "one");
    assert_eq!(boxes[0].confidence, 2147483648);
    assert_eq!((boxes[0].left, boxes[0].top, boxes[0].width, boxes[0].height), (1, 2, 3, 4));
    assert_eq!(boxes[1].text, "three");
    assert_eq!((boxes[1].left, boxes[1].top, boxes[1].width, boxes[1].height), (9, 10, 11, 12));
    assert!(collect_text_boxes(&[], &[]).unwrap().is_empty());
    let short = collect_text_boxes(&rects, &outcomes[..2]).unwrap_err();
    assert_eq!(short.message(), "Engine error: Inconsistent detection results");
    let long = collect_text_boxes(&rects[..1], &outcomes).unwrap_err();
    assert_eq!(long.message(), "Engine error: Inconsistent detection results");
}
