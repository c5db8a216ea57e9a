use ilnyaplus::block_type::BlockType;
use ilnyaplus::chk::CHK;
use ilnyaplus::task_manager::{ResumeableTask, TaskManager};
use ilnyaplus::upload_manager::UploadManager;
use ilnyaplus::upload_task::UploadTask;
use ilnyaplus::upload_task_info::UploadTaskInfo;
use openssl::rand::rand_bytes;

fn sample_chk() -> CHK {
    let mut key = vec![0u8; 32];
    let mut iv = vec![0u8; 12];
    let mut query = vec![0u8; 64];
    rand_bytes(&mut key).unwrap();
    rand_bytes(&mut iv).unwrap();
    rand_bytes(&mut query).unwrap();
    CHK::new(&key, &iv, &query, BlockType::IBlock, 0)
}

#[test]
fn task_info_round_trip() {
    let info = UploadTaskInfo {
        id: b"0a0b0c".to_vec(),
        is_encode_done: true,
        is_upload_done: false,
        file_path_string: b"/tmp/somewhere".to_vec(),
        file_size: 123456789,
        working_directory_string: b"/tmp/work".to_vec(),
        root_i_block_chk: Some(sample_chk().serialize()),
    };
    let bytes = info.to_bytes();
    let back = UploadTaskInfo::from_bytes(&bytes).unwrap();
    assert_eq!(back, info);

    // every truncation fails closed
    for cut in 0..bytes.len() {
        assert!(UploadTaskInfo::from_bytes(&bytes[..cut]).is_err());
    }
}

#[test]
fn upload_task_save_and_restore() {
    let mut task = UploadTask::new(b"/tmp/uploads", b"/tmp/uploads/data.bin", 4096);
    assert!(!task.is_encode_done);
    assert!(!task.is_upload_done);
    assert_eq!(task.uuid.len(), 36);
    task.root_i_block_chk = Some(sample_chk());
    task.is_encode_done = true;

    let saved = task.save();
    let info = UploadTaskInfo::from_bytes(&saved).unwrap();
    let restored = UploadTask::from_info(&info).unwrap();
    assert_eq!(restored.uuid, task.uuid);
    assert_eq!(restored.file_path, task.file_path);
    assert_eq!(restored.file_size, task.file_size);
    assert_eq!(restored.is_encode_done, true);
    assert_eq!(restored.is_upload_done, false);
    assert_eq!(restored.working_directory, task.working_directory);
    assert_eq!(
        restored.root_i_block_chk.unwrap(),
        task.root_i_block_chk.unwrap()
    );
}

#[test]
fn upload_manager_registers_and_finds_tasks() {
    let mut manager = UploadManager::new(b"/tmp/uploads", &[]).unwrap();
    manager.upload(b"/tmp/a.bin", 10);
    manager.upload(b"/tmp/b.bin", 20);
    assert_eq!(manager.task_infos().len(), 2);

    let uuid = manager.tasks[1].uuid.clone();
    let idx = manager.start_task(&uuid).unwrap();
    assert_eq!(idx, 1);
    assert!(manager.start_task(b"not-a-task-id").is_err());
}

struct DevJob {
    text: Vec<u8>,
}

impl ResumeableTask for DevJob {
    fn resume(&self) {}

    fn is_done(&self) -> bool {
        false
    }

    fn save(&self) -> Vec<u8> {
        self.text.clone()
    }

    fn load(savedata: &[u8]) -> Self {
        DevJob { text: savedata.to_vec() }
    }
}

#[test]
fn dev_test() {
    let job = DevJob { text: b"job".to_vec() };
    let mut tm = TaskManager::new();
    let id = tm.append_task(job);
    assert_eq!(id.len(), 36);
}
