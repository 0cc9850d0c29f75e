//! The durability protocol: how the store, its snapshot, the temporary
//! file beside the snapshot and the log relate. The three files are held
//! here as bytes, and every step that changes them is one step.

use crate::database::{
    is_snapshot, key_model, loaded_document, DatabaseCore, DatabaseState,
};
use crate::codec::json_text;
use crate::envelope::sealing_fails_with;
use crate::error::DbError;
use crate::json::Json;
use vstd::prelude::*;
use vstd::slice::slice_to_vec;

verus! {

/// The files of a store. A file that does not exist is `None`.
pub struct Files {
    /// The snapshot.
    pub snapshot: Option<Vec<u8>>,
    /// The temporary file, in which a new snapshot is written before it
    /// takes the place of the old one.
    pub temp: Option<Vec<u8>>,
    /// The write-ahead log.
    pub log: Option<Vec<u8>>,
}

/// The contents of the files of a store.
pub struct FilesModel {
    pub snapshot: Option<Seq<u8>>,
    pub temp: Option<Seq<u8>>,
    pub log: Option<Seq<u8>>,
}

impl View for Files {
    type V = FilesModel;

    open spec fn view(&self) -> FilesModel {
        FilesModel {
            snapshot: key_model(self.snapshot),
            temp: key_model(self.temp),
            log: key_model(self.log),
        }
    }
}

impl FilesModel {
    /// The snapshot that loading reads: the temporary file where there is
    /// one, and the snapshot otherwise.
    pub open spec fn visible_snapshot(self) -> Option<Seq<u8>> {
        match self.temp {
            Some(bytes) => Some(bytes),
            None => self.snapshot,
        }
    }

    /// The files after a new snapshot was written to the temporary file.
    pub open spec fn wrote_temp(self, bytes: Seq<u8>) -> FilesModel {
        FilesModel { temp: Some(bytes), ..self }
    }

    /// The files after the temporary file took the place of the snapshot.
    pub open spec fn promoted(self) -> FilesModel {
        match self.temp {
            Some(bytes) => FilesModel { snapshot: Some(bytes), temp: None, ..self },
            None => self,
        }
    }

    /// The files after the log was emptied.
    pub open spec fn truncated(self) -> FilesModel {
        FilesModel { log: Some(Seq::empty()), ..self }
    }

    /// The files after records were appended to the log.
    pub open spec fn appended(self, records: Seq<u8>) -> FilesModel {
        FilesModel {
            log: Some(
                match self.log {
                    Some(l) => l + records,
                    None => records,
                },
            ),
            ..self
        }
    }
}

fn copy_bytes(bytes: &Option<Vec<u8>>) -> (r: Option<Vec<u8>>)
    ensures
        key_model(r) == key_model(*bytes),
{
    match bytes {
        Some(b) => Some(slice_to_vec(b.as_slice())),
        None => None,
    }
}

impl Files {
    /// No file at all.
    pub fn new() -> (r: Files)
        ensures
            r@ == (FilesModel { snapshot: None, temp: None, log: None }),
    {
        Files { snapshot: None, temp: None, log: None }
    }

    /// Writes a new snapshot to the temporary file.
    pub fn write_temp(&mut self, bytes: Vec<u8>)
        ensures
            final(self)@ == old(self)@.wrote_temp(bytes@),
    {
        self.temp = Some(bytes);
    }

    /// Puts the temporary file, where there is one, in the place of the
    /// snapshot.
    pub fn promote_temp(&mut self)
        ensures
            final(self)@ == old(self)@.promoted(),
    {
        if self.temp.is_some() {
            let mut taken: Option<Vec<u8>> = None;
            std::mem::swap(&mut self.temp, &mut taken);
            self.snapshot = taken;
        }
    }

    /// Empties the log.
    pub fn truncate_log(&mut self)
        ensures
            final(self)@ == old(self)@.truncated(),
    {
        self.log = Some(Vec::new());
    }

    /// Appends records to the log.
    pub fn append_log(&mut self, records: Vec<u8>)
        ensures
            final(self)@ == old(self)@.appended(records@),
    {
        let mut records = records;
        let mut log: Option<Vec<u8>> = None;
        std::mem::swap(&mut self.log, &mut log);
        match log {
            Some(mut l) => {
                l.append(&mut records);
                self.log = Some(l);
            },
            None => {
                self.log = Some(records);
            },
        }
    }
}

impl DatabaseCore {
    /// Loads the store from its files. A temporary file that was left
    /// behind is a complete snapshot and first takes the place of the
    /// snapshot. Then the document is that of the snapshot, or the empty
    /// object where there is none, with the log replayed over it. Where the
    /// snapshot cannot be read, the store stays as it is.
    pub fn load_from(&mut self, files: &mut Files) -> (r: Result<(), DbError>)
        requires
            old(self)@.wf(),
        ensures
            final(self)@.wf(),
            final(files)@ == old(files)@.promoted(),
            final(files)@.snapshot == old(files)@.visible_snapshot(),
            match r {
                Ok(()) => loaded_document(
                    old(files)@.visible_snapshot(),
                    old(files)@.log,
                    old(self)@.key,
                ) == Ok::<Json, DbError>(final(self)@.data) && final(self)@ == (DatabaseState {
                    data: final(self)@.data,
                    ..old(self)@
                }),
                Err(e) => loaded_document(
                    old(files)@.visible_snapshot(),
                    old(files)@.log,
                    old(self)@.key,
                ) == Err::<Json, DbError>(e) && final(self)@ == old(self)@,
            },
    {
        files.promote_temp();
        let snapshot = copy_bytes(&files.snapshot);
        let log = copy_bytes(&files.log);
        self.load(snapshot, log)
    }

    /// Saves the store to its files: the snapshot is written to the
    /// temporary file, the temporary file takes the place of the snapshot,
    /// and the log is emptied, where the store logs. Afterwards the
    /// snapshot on disk is that of the document in memory, there is no
    /// temporary file, and no record is pending. Without a key this
    /// succeeds; where no snapshot can be sealed, the files and the store
    /// stay as they are.
    pub fn save_to(&mut self, files: &mut Files) -> (r: Result<(), DbError>)
        requires
            old(self)@.wf(),
        ensures
            final(self)@.wf(),
            old(self)@.key is None ==> r is Ok,
            match r {
                Ok(()) => {
                    &&& final(self)@ == (DatabaseState { wal: Seq::empty(), ..old(self)@ })
                    &&& final(files)@.snapshot is Some
                    &&& is_snapshot(final(files)@.snapshot->0, old(self)@)
                    &&& final(files)@.temp is None
                    &&& final(files)@.log == if old(self)@.use_wal {
                        Some(Seq::<u8>::empty())
                    } else {
                        old(files)@.log
                    }
                },
                Err(e) => final(self)@ == old(self)@ && final(files)@ == old(files)@ && old(
                    self,
                )@.key is Some && sealing_fails_with(e, json_text(old(self)@.data)),
            },
    {
        let bytes = match self.save() {
            Ok(b) => b,
            Err(e) => {
                return Err(e);
            },
        };
        files.write_temp(bytes);
        files.promote_temp();
        if self.logs() {
            files.truncate_log();
        }
        self.take_wal();
        Ok(())
    }

    /// Hands the pending records to the log on disk, where the store logs.
    pub fn flush_to(&mut self, files: &mut Files)
        ensures
            final(self)@ == (DatabaseState { wal: Seq::empty(), ..old(self)@ }),
            final(files)@ == if old(self)@.use_wal {
                old(files)@.appended(old(self)@.wal)
            } else {
                old(files)@
            },
    {
        let logs = self.logs();
        let records = self.take_wal();
        if logs {
            files.append_log(records);
        }
    }
}

/// While a snapshot is saved, the snapshot that loading reads is at every
/// step either the old snapshot or the whole new one: before the new
/// snapshot is written it is the old one, and from then on, before and
/// after the temporary file takes its place and after the log is emptied,
/// it is the new one.
pub proof fn lemma_snapshot_is_atomic(files: FilesModel, bytes: Seq<u8>)
    requires
        files.temp is None,
    ensures
        files.visible_snapshot() == files.snapshot,
        files.wrote_temp(bytes).visible_snapshot() == Some(bytes),
        files.wrote_temp(bytes).promoted().visible_snapshot() == Some(bytes),
        files.wrote_temp(bytes).promoted().truncated().visible_snapshot() == Some(bytes),
        files.wrote_temp(bytes).promoted().temp is None,
{
}

/// A temporary file that was left behind without a snapshot is the snapshot
/// that loading reads, and after loading it is the snapshot.
pub proof fn lemma_temp_recovery(files: FilesModel)
    requires
        files.temp is Some,
    ensures
        files.visible_snapshot() == files.temp,
        files.promoted().snapshot == files.temp,
        files.promoted().temp is None,
{
}

} // verus!
