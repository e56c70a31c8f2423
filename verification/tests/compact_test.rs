use moss::error::StorageError;
use moss::file::{read_header, FileOp};
use moss::storage::{Moss, Timestamp};

/// An archive whose file is kept in memory.
struct Archive {
    moss: Moss,
    image: Vec<u8>,
}

fn perform(image: &mut Vec<u8>, steps: &[FileOp]) {
    for step in steps {
        match step {
            FileOp::Append(bytes) => image.extend_from_slice(bytes),
            FileOp::Patch { position, bytes } => {
                let start = *position as usize;
                image[start..start + bytes.len()].copy_from_slice(bytes);
            }
            FileOp::SyncData | FileOp::SyncAll => {}
        }
    }
}

impl Archive {
    fn create() -> Self {
        let (moss, steps) = Moss::create();
        let mut image = Vec::new();
        perform(&mut image, &steps);
        Archive { moss, image }
    }

    fn open(image: Vec<u8>) -> Result<Self, StorageError> {
        let header = read_header(&image, image.len() as u64)?;
        let rest = &image[header.index_pointer as usize..];
        let (moss, _) = Moss::open(header, rest, 0, 0, Timestamp::now())?;
        Ok(Archive { moss, image })
    }

    fn end(&self) -> u64 {
        self.image.len() as u64
    }

    fn flush(&mut self) -> Result<(), StorageError> {
        let end = self.end();
        let steps = self.moss.flush_index(end)?;
        perform(&mut self.image, &steps);
        self.moss.flushed(end);
        Ok(())
    }

    fn write_file(&mut self, path: &str, data: &[u8]) -> Result<(), StorageError> {
        let pending = self.moss.write_file(path, data, self.end(), 0, 0, Timestamp::now())?;
        perform(&mut self.image, pending.ops());
        if self.moss.record(pending, 0) {
            self.flush()?;
        }
        Ok(())
    }

    fn remove_prefix(&mut self, path: &str) -> Result<usize, StorageError> {
        let (count, due) = self.moss.remove_prefix(path, 0)?;
        if due {
            self.flush()?;
        }
        Ok(count)
    }

    fn sync(&mut self) -> Result<(), StorageError> {
        let end = self.end();
        let steps = self.moss.sync(end)?;
        perform(&mut self.image, &steps);
        self.moss.synced(end);
        Ok(())
    }

    fn compact(&mut self) -> Result<(), StorageError> {
        let plan = self.moss.compact()?;
        let mut image = plan.head().clone();
        for extent in plan.extents() {
            let start = extent.start as usize;
            image.extend_from_slice(&self.image[start..start + extent.length as usize]);
        }
        perform(&mut image, plan.ops());
        self.image = image;
        self.moss.compacted(plan);
        Ok(())
    }

    fn read_file(&self, path: &str) -> Result<Vec<u8>, StorageError> {
        let extent = self.moss.read_file(path)?;
        let start = extent.start as usize;
        Ok(self.image[start..start + extent.length as usize].to_vec())
    }
}

#[test]
fn test_compact_reclaims_space() {
    let mut moss = Archive::create();

    for i in 0..100 {
        let data = format!("file_{} content with padding\n", i);
        moss.write_file(&format!("file_{}.txt", i), data.as_bytes()).unwrap();
    }
    assert_eq!(moss.moss.entries().len(), 100);

    let before_size = moss.image.len();

    for i in 0..50 {
        moss.remove_prefix(&format!("file_{}.txt", i)).unwrap();
    }
    assert_eq!(moss.moss.entries().len(), 50);

    moss.sync().unwrap();

    let after_delete_size = moss.image.len();
    assert!(after_delete_size > before_size, "append-only should grow");

    moss.compact().unwrap();

    let after_compact_size = moss.image.len();
    assert_eq!(moss.moss.entries().len(), 50);
    assert!(
        after_compact_size < after_delete_size,
        "compact should reclaim space: {} < {}",
        after_compact_size,
        after_delete_size
    );

    for i in 50..100 {
        let data = moss.read_file(&format!("file_{}.txt", i)).unwrap();
        let expected = format!("file_{} content with padding\n", i);
        assert_eq!(String::from_utf8(data).unwrap(), expected);
    }
}

#[test]
fn test_compact_reopen() {
    let image = {
        let mut moss = Archive::create();
        for i in 0..200 {
            let data = format!("data_chunk_{}\n", i);
            moss.write_file(&format!("chunk_{}.bin", i), data.as_bytes()).unwrap();
        }
        moss.remove_prefix("chunk_0.bin").unwrap();
        moss.remove_prefix("chunk_1.bin").unwrap();
        moss.sync().unwrap();
        moss.compact().unwrap();
        moss.image
    };

    let moss = Archive::open(image).unwrap();
    assert_eq!(moss.moss.entries().len(), 198);

    for i in 2..200 {
        let data = moss.read_file(&format!("chunk_{}.bin", i)).unwrap();
        let expected = format!("data_chunk_{}\n", i);
        assert_eq!(String::from_utf8(data).unwrap(), expected);
    }
}

#[test]
fn compaction_leaves_header_payloads_and_index() {
    let mut moss = Archive::create();
    moss.write_file("a", b"12345").unwrap();
    moss.write_file("a", b"678").unwrap();
    moss.write_file("b", b"").unwrap();
    moss.sync().unwrap();
    moss.compact().unwrap();
    // 64 bytes of header, 3 of payload, 12 of index head, and 4 + 1 + 63 for each entry.
    assert_eq!(moss.image.len(), 64 + 3 + 12 + 2 * 68);
    assert_eq!(&moss.image[64..67], b"678");
    assert_eq!(moss.read_file("a").unwrap(), b"678".to_vec());
    assert_eq!(moss.read_file("b").unwrap(), Vec::<u8>::new());
    // Compacting again changes nothing.
    let once = moss.image.clone();
    moss.compact().unwrap();
    assert_eq!(moss.image, once);
}

#[test]
fn interrupted_flush_keeps_the_last_index() {
    let mut moss = Archive::create();
    moss.write_file("kept", b"kept").unwrap();
    moss.sync().unwrap();
    moss.write_file("lost", b"lost").unwrap();
    let steps = moss.moss.flush_index(moss.end()).unwrap();
    for done in 0..3 {
        let mut image = moss.image.clone();
        perform(&mut image, &steps[..done]);
        let again = Archive::open(image).unwrap();
        assert_eq!(again.moss.entries().len(), 1);
        assert_eq!(again.read_file("kept").unwrap(), b"kept".to_vec());
    }
    let mut image = moss.image.clone();
    perform(&mut image, &steps);
    assert_eq!(Archive::open(image).unwrap().moss.entries().len(), 2);
}

/// Paths, kinds, places, modes and times of all entries.
fn fields(moss: &Moss) -> Vec<(String, u8, u64, u64, u16, u32, u32, [Timestamp; 3])> {
    moss.entries()
        .into_iter()
        .map(|e| {
            let times = [e.atime, e.mtime, e.ctime];
            let kind = e.kind.to_byte();
            (e.virtual_path.clone(), kind, e.start_byte, e.block_length, e.mode, e.uid, e.gid, times)
        })
        .collect()
}

#[test]
fn a_synced_archive_opens_as_it_was() {
    let mut moss = Archive::create();
    let time = |seconds| Timestamp { seconds, nanoseconds: 7 };
    moss.write_file("docs/a", b"alpha").unwrap();
    moss.write_file("docs/b", b"").unwrap();
    moss.write_file("c", b"gamma").unwrap();
    moss.write_file("docs/a", b"again").unwrap();
    moss.moss.rename_prefix("docs", "texts", time(5), 0).unwrap();
    moss.moss.update_metadata("c", Some(0o600), Some(time(1)), None, time(2), 0).unwrap();
    moss.remove_prefix("texts/b").unwrap();
    moss.sync().unwrap();
    moss.compact().unwrap();
    moss.write_file("d", b"delta").unwrap();
    moss.sync().unwrap();

    // Nothing waits to be written any more.
    let image = moss.image.clone();
    moss.sync().unwrap();
    assert_eq!(moss.image, image);

    let again = Archive::open(image).unwrap();
    assert_eq!(fields(&again.moss), fields(&moss.moss));
    assert_eq!(again.read_file("texts/a").unwrap(), b"again".to_vec());
    assert_eq!(again.read_file("c").unwrap(), b"gamma".to_vec());
    assert_eq!(again.read_file("d").unwrap(), b"delta".to_vec());
    assert_eq!(again.moss.entries().len(), 3);
}
