//! The store, driven over files that are held in memory.

use flint::action::{Action, Effect, Step};
use flint::keydir::Loc;
use flint::naming::seg_path;
use flint::record::{encode, MAX_KV};
use flint::store::StoreError;
use flint::Store;
use std::collections::BTreeMap;

type Files = BTreeMap<String, Vec<u8>>;

/// Carries out an action on the files.
fn perform(files: &mut Files, action: &Action) {
    match action {
        Action::OpenAppend { id } => {
            files.entry(seg_path(*id)).or_default();
        }
        Action::OpenReader { id } => assert!(files.contains_key(&seg_path(*id))),
        Action::Append { id, bytes } => files.get_mut(&seg_path(*id)).unwrap().extend(bytes),
        Action::Remove { id } => {
            files.remove(&seg_path(*id));
        }
        Action::CloseReaders | Action::Sync { .. } | Action::SyncDir => {}
    }
}

/// A store and its files, and a record of what was done to them.
struct Db {
    files: Files,
    store: Store,
    log: Vec<String>,
}

fn open(mut files: Files, seg_cap: u64) -> Db {
    let names: Vec<String> = files.keys().cloned().collect();
    let mut opening = Store::open(&names, seg_cap);
    while let Some(id) = opening.next() {
        let bytes = files[&seg_path(id)].clone();
        let action = opening.replay(&bytes, true).unwrap();
        perform(&mut files, &action);
    }
    for action in opening.last_actions() {
        perform(&mut files, &action);
    }
    let len = files[&seg_path(opening.active_id())].len();
    Db { files, store: opening.finish(len as u64), log: Vec::new() }
}

/// Opens the store by reading its segments piece by piece.
fn open_in_pieces(mut files: Files, seg_cap: u64) -> Db {
    let names: Vec<String> = files.keys().cloned().collect();
    let mut opening = Store::open(&names, seg_cap);
    while let Some(id) = opening.next() {
        let bytes = files[&seg_path(id)].clone();
        let mut at = 0;
        loop {
            assert!(opening.has_room());
            let end = bytes.len().min(at + opening.wanted());
            let fed = opening.feed(&bytes[at..end], true).unwrap();
            at = end;
            if let Some(action) = fed {
                perform(&mut files, &action);
                break;
            }
        }
    }
    for action in opening.last_actions() {
        perform(&mut files, &action);
    }
    let len = files[&seg_path(opening.active_id())].len();
    Db { files, store: opening.finish(len as u64), log: Vec::new() }
}

fn fresh(seg_cap: u64) -> Db {
    open(Files::new(), seg_cap)
}

impl Db {
    fn take(&mut self, step: Step) {
        self.log.push(match &step.action {
            Action::Append { id, .. } => format!("append {id}"),
            other => format!("{other:?}"),
        });
        perform(&mut self.files, &step.action);
        assert!(self.store.accepts(&step.effect));
        self.store.done(step.effect);
    }

    fn take_all(&mut self, steps: Vec<Step>) {
        for step in steps {
            self.take(step);
        }
    }

    fn set(&mut self, key: &[u8], val: &[u8]) -> Result<(), StoreError> {
        let steps = self.store.set(key, val)?;
        self.take_all(steps);
        Ok(())
    }

    fn read(&self, loc: Loc) -> Vec<u8> {
        let start = loc.val_pos as usize;
        self.files[&seg_path(loc.file_id)][start..start + loc.val_len as usize].to_vec()
    }

    fn get(&mut self, key: &[u8]) -> Result<Option<Vec<u8>>, StoreError> {
        match self.store.get(key) {
            None => Ok(None),
            Some((steps, place)) => {
                self.take_all(steps);
                Ok(Some(self.read(place?)))
            }
        }
    }

    fn delete(&mut self, key: &[u8]) -> bool {
        match self.store.delete(key) {
            None => false,
            Some(steps) => {
                self.take_all(steps);
                true
            }
        }
    }

    fn flush(&mut self) {
        let step = self.store.flush();
        self.take(step);
    }

    fn compact(&mut self) {
        for step in self.compaction_steps() {
            self.take(step);
        }
    }

    /// The steps of a compaction.
    fn compaction_steps(&mut self) -> Vec<Step> {
        assert!(self.store.can_compact());
        let (mut compaction, first) = self.store.compact();
        let mut steps = vec![first];
        while let Some(loc) = compaction.next() {
            let (opens, place) = self.store.read_value(loc);
            self.take_all(opens);
            let val = self.read(place.unwrap());
            assert!(compaction.has_room());
            steps.push(compaction.copy(&val));
        }
        steps.extend(compaction.finish());
        steps
    }

    fn all(&mut self, keys: &[&[u8]]) -> Vec<Option<Vec<u8>>> {
        keys.iter().map(|k| self.get(k).unwrap()).collect()
    }
}

#[test]
fn set_get_delete() {
    let mut s = fresh(1 << 20);
    s.set(b"a", b"1").unwrap();
    s.set(b"b", b"two").unwrap();
    assert_eq!(s.get(b"a").unwrap().as_deref(), Some(&b"1"[..]));
    assert_eq!(s.get(b"b").unwrap().as_deref(), Some(&b"two"[..]));
    assert_eq!(s.get(b"missing").unwrap(), None);
    assert!(s.delete(b"a"));
    assert_eq!(s.get(b"a").unwrap(), None);
    assert!(!s.delete(b"a"));
}

#[test]
fn overwrite_keeps_latest() {
    let mut s = fresh(1 << 20);
    s.set(b"k", b"old").unwrap();
    s.set(b"k", b"new").unwrap();
    assert_eq!(s.get(b"k").unwrap().as_deref(), Some(&b"new"[..]));
    assert_eq!(s.store.len(), 1);
}

#[test]
fn persists_across_reopen() {
    let mut s = fresh(1 << 20);
    s.set(b"k", b"v").unwrap();
    s.set(b"gone", b"x").unwrap();
    s.delete(b"gone");
    s.flush();
    let mut s = open(s.files, 1 << 20);
    assert_eq!(s.get(b"k").unwrap().as_deref(), Some(&b"v"[..]));
    assert_eq!(s.get(b"gone").unwrap(), None);
}

#[test]
fn rolls_segments_then_reads() {
    let mut s = fresh(64);
    for i in 0..50u32 {
        s.set(format!("key{i}").as_bytes(), format!("val{i}").as_bytes()).unwrap();
    }
    assert!(s.store.segment_count() > 1);
    for i in 0..50u32 {
        assert_eq!(
            s.get(format!("key{i}").as_bytes()).unwrap().as_deref(),
            Some(format!("val{i}").as_bytes())
        );
    }
}

#[test]
fn compaction_reclaims_and_preserves() {
    let mut s = fresh(128);
    for i in 0..200u32 {
        s.set(b"hot", format!("v{i}").as_bytes()).unwrap();
    }
    s.set(b"cold", b"stays").unwrap();
    s.delete(b"cold");
    s.set(b"live", b"yes").unwrap();
    let before = s.store.segment_count();
    s.compact();
    assert!(s.store.segment_count() <= before);
    assert_eq!(s.get(b"hot").unwrap().as_deref(), Some(&b"v199"[..]));
    assert_eq!(s.get(b"cold").unwrap(), None);
    assert_eq!(s.get(b"live").unwrap().as_deref(), Some(&b"yes"[..]));
    let mut s2 = open(s.files, 128);
    assert_eq!(s2.get(b"hot").unwrap().as_deref(), Some(&b"v199"[..]));
    assert_eq!(s2.get(b"live").unwrap().as_deref(), Some(&b"yes"[..]));
}

#[test]
fn rejects_oversize_key_or_value() {
    let mut s = fresh(1 << 20);
    let big = vec![0u8; MAX_KV + 1];
    assert!(s.set(b"k", &big).is_err());
    assert!(s.set(&big, b"v").is_err());
    assert!(s.set(b"k", b"ok").is_ok());
}

#[test]
fn corrupt_huge_length_does_not_allocate_or_panic() {
    let mut files = fresh(1 << 20).files;
    let mut bytes = Vec::new();
    bytes.extend_from_slice(&0u32.to_le_bytes());
    bytes.extend_from_slice(&0xFFFF_FFFEu32.to_le_bytes());
    bytes.extend_from_slice(&0u32.to_le_bytes());
    files.insert("000001.flog".to_string(), bytes);
    let s = open(files, 1 << 20);
    assert_eq!(s.store.len(), 0);
}

#[test]
fn sync_writes_mode_persists() {
    let mut s = fresh(1 << 20);
    s.store.set_sync_writes(true);
    s.set(b"durable", b"yes").unwrap();
    let mut s = open(s.files, 1 << 20);
    assert_eq!(s.get(b"durable").unwrap().as_deref(), Some(&b"yes"[..]));
}

#[test]
fn values_with_spaces_and_binary() {
    let mut s = fresh(1 << 20);
    s.set(b"phrase", b"hello there world").unwrap();
    s.set(b"bin", &[0u8, 255, 10, 13, 32]).unwrap();
    assert_eq!(s.get(b"phrase").unwrap().as_deref(), Some(&b"hello there world"[..]));
    assert_eq!(s.get(b"bin").unwrap().as_deref(), Some(&[0u8, 255, 10, 13, 32][..]));
}

#[test]
fn oversize_is_told_in_words() {
    let s = fresh(1 << 20);
    let big = vec![0u8; MAX_KV + 1];
    let e = s.store.set(&big, b"").err().unwrap();
    assert_eq!(e, StoreError::Oversize);
    assert_eq!(e.message(), "key or value exceeds MAX_KV");
    assert_eq!(StoreError::ValueTooLong.message(), "value length exceeds MAX_KV");
    assert_eq!(StoreError::Unreadable.message(), "segment could not be read");
}

#[test]
fn a_claimed_value_above_the_limit_is_not_read() {
    let s = fresh(1 << 20);
    let loc = Loc { file_id: 1, val_pos: 0, val_len: MAX_KV as u32 + 1 };
    let (steps, place) = s.store.read_value(loc);
    assert!(steps.is_empty());
    assert_eq!(place, Err(StoreError::ValueTooLong));
    let (_, place) = s.store.read_value(Loc { file_id: 1, val_pos: 0, val_len: MAX_KV as u32 });
    assert!(place.is_ok());
}

#[test]
fn a_segment_without_a_reader_is_opened_first() {
    let s = fresh(1 << 20);
    let (steps, place) = s.store.read_value(Loc { file_id: 7, val_pos: 0, val_len: 1 });
    assert_eq!(steps.len(), 1);
    assert!(matches!(steps[0].action, Action::OpenReader { id: 7 }));
    assert!(matches!(steps[0].effect, Effect::Reading { id: 7 }));
    assert!(place.is_ok());
}

#[test]
fn a_new_store_has_one_empty_segment() {
    let s = fresh(1 << 20);
    assert_eq!(s.store.active_id(), 1);
    assert_eq!(s.store.segment_count(), 1);
    assert_eq!(s.store.len(), 0);
    assert!(s.store.is_empty());
    assert_eq!(s.files, Files::from([("000001.flog".to_string(), vec![])]));
}

#[test]
fn writes_go_to_the_log_as_records() {
    let mut s = fresh(1 << 20);
    s.set(b"k", b"v").unwrap();
    s.delete(b"k");
    let mut expected = encode(b"k", Some(b"v"));
    expected.extend(encode(b"k", None));
    assert_eq!(s.files["000001.flog"], expected);
    assert!(s.store.is_empty());
    assert_eq!(s.log, ["append 1", "append 1"]);
}

#[test]
fn a_full_segment_is_synced_before_it_is_left() {
    let mut s = fresh(10);
    s.set(b"a", b"1").unwrap();
    assert_eq!(s.store.segment_count(), 1);
    s.set(b"b", b"2").unwrap();
    assert_eq!(
        s.log,
        [
            "append 1",
            "Sync { id: 1 }",
            "OpenAppend { id: 2 }",
            "SyncDir",
            "OpenReader { id: 2 }",
            "append 2"
        ]
    );
    assert_eq!(s.store.active_id(), 2);
    assert_eq!(s.store.segment_count(), 2);
    assert_eq!(s.files["000002.flog"], encode(b"b", Some(b"2")));
}

#[test]
fn sync_mode_ends_every_write_in_a_sync() {
    let mut s = fresh(1 << 20);
    s.store.set_sync_writes(true);
    s.set(b"a", b"1").unwrap();
    s.delete(b"a");
    s.store.set_sync_writes(false);
    s.set(b"a", b"1").unwrap();
    s.flush();
    assert_eq!(
        s.log,
        [
            "append 1",
            "Sync { id: 1 }",
            "append 1",
            "Sync { id: 1 }",
            "append 1",
            "Sync { id: 1 }"
        ]
    );
}

#[test]
fn later_segments_win_when_a_store_is_opened() {
    let mut first = encode(b"k", Some(b"old"));
    first.extend(encode(b"only", Some(b"here")));
    let mut second = encode(b"k", Some(b"new"));
    second.extend(encode(b"only", None));
    let files = Files::from([
        ("000010.flog".to_string(), second),
        ("000009.flog".to_string(), first),
        ("notes.txt".to_string(), encode(b"x", Some(b"y"))),
        ("abc.flog".to_string(), vec![]),
    ]);
    let mut s = open(files, 1 << 20);
    assert_eq!(s.get(b"k").unwrap().as_deref(), Some(&b"new"[..]));
    assert_eq!(s.get(b"only").unwrap(), None);
    assert_eq!(s.get(b"x").unwrap(), None);
    assert_eq!(s.store.active_id(), 10);
    assert_eq!(s.store.segment_count(), 2);
}

#[test]
fn a_segment_that_cannot_be_read_fails_the_opening() {
    let names = vec![seg_path(1)];
    let mut opening = Store::open(&names, 100);
    assert_eq!(opening.next(), Some(1));
    assert_eq!(opening.replay(&[1, 2, 3], false).err(), Some(StoreError::Unreadable));
    let mut opening = Store::open(&names, 100);
    let mut cut = encode(b"key", Some(b"value"));
    cut.pop();
    assert!(opening.replay(&cut, false).is_ok());
    assert_eq!(opening.next(), None);
    assert_eq!(opening.finish(19).len(), 0);
}

#[test]
fn a_crash_during_a_write_leaves_the_old_or_the_new_value() {
    let mut s = fresh(1 << 20);
    s.set(b"k", b"old").unwrap();
    s.set(b"other", b"kept").unwrap();
    let steps = s.store.set(b"k", b"new").unwrap();
    assert_eq!(steps.len(), 1);
    let bytes = match &steps[0].action {
        Action::Append { id: 1, bytes } => bytes.clone(),
        other => panic!("{other:?}"),
    };
    for torn in 0..=bytes.len() {
        let mut files = s.files.clone();
        files.get_mut("000001.flog").unwrap().extend(&bytes[..torn]);
        let mut t = open(files, 1 << 20);
        let expected: &[u8] = if torn < bytes.len() { b"old" } else { b"new" };
        assert_eq!(t.get(b"k").unwrap().as_deref(), Some(expected));
        assert_eq!(t.get(b"other").unwrap().as_deref(), Some(&b"kept"[..]));
        assert_eq!(t.store.len(), 2);
    }
}

#[test]
fn a_flipped_bit_costs_only_what_follows_it() {
    let mut s = fresh(1 << 20);
    s.set(b"first", b"1").unwrap();
    let start = s.files["000001.flog"].len();
    s.set(b"second", b"2").unwrap();
    let end = s.files["000001.flog"].len();
    for at in start..end {
        let mut files = s.files.clone();
        files.get_mut("000001.flog").unwrap()[at] ^= 1;
        let mut t = open(files, 1 << 20);
        assert_eq!(t.get(b"first").unwrap().as_deref(), Some(&b"1"[..]));
        assert_eq!(t.get(b"second").unwrap(), None);
    }
}

fn worn() -> Db {
    let mut s = fresh(40);
    for i in 0..6u32 {
        s.set(b"hot", format!("v{i}").as_bytes()).unwrap();
    }
    s.set(b"cold", b"c").unwrap();
    s.delete(b"cold");
    s.set(b"live", b"").unwrap();
    s
}

#[test]
fn compaction_leaves_one_record_for_each_live_key() {
    let mut s = worn();
    let active = s.store.active_id();
    s.compact();
    assert_eq!(s.store.segment_count(), 2);
    assert_eq!(s.store.active_id(), active + 2);
    assert_eq!(s.files.len(), 2);
    assert_eq!(s.files[&seg_path(active + 2)], Vec::<u8>::new());
    let merged = &s.files[&seg_path(active + 1)];
    let hot = encode(b"hot", Some(b"v5"));
    let live = encode(b"live", Some(b""));
    assert_eq!(merged.len(), hot.len() + live.len());
    assert!(merged.starts_with(&hot) || merged.ends_with(&hot));
    assert!(merged.starts_with(&live) || merged.ends_with(&live));
    assert_eq!(s.all(&[b"hot", b"cold", b"live"]), [Some(b"v5".to_vec()), None, Some(vec![])]);
}

#[test]
fn compaction_syncs_before_it_removes() {
    let mut s = worn();
    let merged = s.store.active_id() + 1;
    s.log.clear();
    s.compact();
    let sync = s.log.iter().position(|l| *l == format!("Sync {{ id: {merged} }}")).unwrap();
    assert_eq!(s.log[sync + 2], "SyncDir");
    assert!(s.log.iter().take(sync + 2).all(|l| !l.starts_with("Remove")));
    assert_eq!(s.log.last().unwrap(), "SyncDir");
    assert!(s.log.iter().skip(sync).all(|l| !l.starts_with("append")));
    assert!(s.log.iter().any(|l| l == "Remove { id: 1 }"));
}

#[test]
fn a_crash_during_compaction_loses_nothing() {
    let mut s = worn();
    let expected = s.all(&[b"hot", b"cold", b"live"]);
    let steps = s.compaction_steps();
    for done in 0..=steps.len() {
        let mut files = s.files.clone();
        for step in &steps[..done] {
            perform(&mut files, &step.action);
        }
        let torn: Vec<Vec<u8>> = match steps.get(done).map(|step| &step.action) {
            Some(Action::Append { bytes, .. }) => {
                (0..=bytes.len()).map(|n| bytes[..n].to_vec()).collect()
            }
            _ => vec![vec![]],
        };
        for tail in torn {
            let mut files = files.clone();
            if let Some(Action::Append { id, .. }) = steps.get(done).map(|step| &step.action) {
                files.get_mut(&seg_path(*id)).unwrap().extend(&tail);
            }
            let mut t = open(files, 40);
            assert_eq!(t.all(&[b"hot", b"cold", b"live"]), expected);
            assert_eq!(t.store.len(), 2);
        }
    }
}

#[test]
fn segments_that_cannot_be_removed_change_no_value() {
    let mut s = worn();
    let expected = s.all(&[b"hot", b"cold", b"live"]);
    for step in s.compaction_steps() {
        if step.is_needed() {
            s.take(step);
        } else {
            assert!(matches!(step.action, Action::Remove { .. }));
        }
    }
    assert_eq!(s.all(&[b"hot", b"cold", b"live"]), expected);
    assert_eq!(s.store.segment_count(), s.files.len());
    let mut t = open(s.files.clone(), 40);
    assert_eq!(t.get(b"hot").unwrap(), expected[0]);
    assert_eq!(t.get(b"live").unwrap(), expected[2]);
    s.compact();
    assert_eq!(s.files.len(), 2);
}

#[test]
fn a_compacted_store_goes_on() {
    let mut s = worn();
    s.compact();
    s.set(b"more", b"m").unwrap();
    s.delete(b"hot");
    s.compact();
    s.compact();
    assert_eq!(s.store.segment_count(), 2);
    let mut s = open(s.files, 40);
    assert_eq!(
        s.all(&[b"hot", b"live", b"more"]),
        [None, Some(vec![]), Some(b"m".to_vec())]
    );
}

#[test]
fn lengths_are_kept_within_bounds() {
    let opening = Store::open(&[], 5);
    let full = opening.finish(u64::MAX - 3);
    assert!(full.has_room(3));
    assert!(full.has_room(13));
    let opening = Store::open(&[], u64::MAX);
    let full = opening.finish(u64::MAX - 3);
    assert!(full.has_room(3));
    assert!(!full.has_room(4));
    assert!(!full.accepts(&Effect::Gone { key: vec![], len: 4 }));
    assert!(full.accepts(&Effect::Gone { key: vec![], len: 3 }));
    let names = vec!["18446744073709551614.flog".to_string()];
    let mut opening = Store::open(&names, 100);
    assert!(opening.replay(&[], true).is_ok());
    assert!(!opening.finish(0).can_compact());
}

#[test]
fn many_keys_are_told_apart() {
    let mut s = fresh(1 << 20);
    for i in 0..300u32 {
        s.set(format!("k{i}").as_bytes(), &i.to_le_bytes()).unwrap();
    }
    for i in (0..300u32).step_by(3) {
        assert!(s.delete(format!("k{i}").as_bytes()));
    }
    assert_eq!(s.store.len(), 200);
    for i in 0..300u32 {
        let got = s.get(format!("k{i}").as_bytes()).unwrap();
        assert_eq!(got, if i % 3 == 0 { None } else { Some(i.to_le_bytes().to_vec()) });
    }
}

/// What a loss of power leaves of the files, by these steps, at the least: the names and
/// the bytes that are on stable storage.
struct Stable {
    files: Files,
    names: Vec<String>,
    lens: BTreeMap<u64, usize>,
}

impl Stable {
    fn of(files: &Files) -> Stable {
        Stable {
            files: files.clone(),
            names: files.keys().cloned().collect(),
            lens: (0..100)
                .filter_map(|id| files.get(&seg_path(id)).map(|bytes| (id, bytes.len())))
                .collect(),
        }
    }

    fn take(&mut self, action: &Action) {
        perform(&mut self.files, action);
        match action {
            Action::Sync { id } => {
                self.lens.insert(*id, self.files[&seg_path(*id)].len());
            }
            Action::SyncDir => self.names = self.files.keys().cloned().collect(),
            _ => {}
        }
    }

    /// The files, without what is not on stable storage.
    fn left(&self) -> Files {
        let mut files = Files::new();
        for id in 0..100 {
            let name = seg_path(id);
            if let (true, Some(bytes)) = (self.names.contains(&name), self.files.get(&name)) {
                let len = self.lens.get(&id).copied().unwrap_or(0);
                files.insert(name, bytes[..len].to_vec());
            }
        }
        files
    }
}

#[test]
fn a_loss_of_power_takes_no_synced_write() {
    let mut s = fresh(40);
    s.store.set_sync_writes(true);
    for i in 0..9u32 {
        let mut stable = Stable::of(&s.files);
        for step in s.store.set(b"k", &i.to_le_bytes()).unwrap() {
            stable.take(&step.action);
            s.take(step);
        }
        assert_eq!(stable.left(), s.files);
    }
    let mut t = open(s.files, 40);
    assert_eq!(t.get(b"k").unwrap(), Some(8u32.to_le_bytes().to_vec()));
}

#[test]
fn a_loss_of_power_takes_only_what_was_not_flushed() {
    let mut s = fresh(20);
    s.set(b"k", b"a long value, which fills the segment").unwrap();
    let mut stable = Stable::of(&s.files);
    for step in s.store.set(b"k", b"flushed").unwrap() {
        stable.take(&step.action);
        s.take(step);
    }
    let step = s.store.flush();
    stable.take(&step.action);
    s.take(step);
    assert_eq!(stable.left(), s.files);
    for step in s.store.set(b"k", b"not flushed").unwrap() {
        stable.take(&step.action);
        s.take(step);
    }
    let mut t = open(stable.left(), 20);
    assert_eq!(t.get(b"k").unwrap().as_deref(), Some(&b"flushed"[..]));
}

#[test]
fn a_compaction_survives_a_loss_of_power() {
    let mut s = worn();
    let expected = s.all(&[b"hot", b"cold", b"live"]);
    let mut stable = Stable::of(&s.files);
    for step in s.compaction_steps() {
        stable.take(&step.action);
        s.take(step);
        let mut t = open(stable.left(), 40);
        assert_eq!(t.all(&[b"hot", b"cold", b"live"]), expected);
    }
    assert_eq!(stable.left(), s.files);
}

#[test]
fn old_segments_that_come_back_hide_no_live_value() {
    let mut s = worn();
    let old = s.files.clone();
    let expected = s.all(&[b"hot", b"live"]);
    s.compact();
    for mask in 0..1 << old.len() {
        let mut files = s.files.clone();
        for (i, (name, bytes)) in old.iter().enumerate() {
            if mask & 1 << i != 0 {
                files.insert(name.clone(), bytes.clone());
            }
        }
        let mut t = open(files, 40);
        assert_eq!(t.all(&[b"hot", b"live"]), expected);
    }
}

#[test]
fn a_write_after_recovery_is_found_again() {
    for tail in [&[1u8, 2, 3][..], &[0; 12], &encode(b"b", Some(b"torn"))[..15]] {
        let mut bytes = encode(b"a", Some(b"1"));
        bytes.extend(tail);
        let files = Files::from([("000001.flog".to_string(), bytes.clone())]);
        let mut s1 = open(files, 1 << 20);
        assert_eq!(s1.files["000001.flog"], bytes);
        s1.set(b"b", b"2").unwrap();
        s1.flush();
        let mut s = open(s1.files, 1 << 20);
        assert_eq!(s.get(b"a").unwrap(), Some(b"1".to_vec()));
        assert_eq!(s.get(b"b").unwrap(), Some(b"2".to_vec()));
        assert!(s.delete(b"a"));
        let mut s = open(s.files, 1 << 20);
        assert_eq!(s.all(&[b"a", b"b"]), [None, Some(b"2".to_vec())]);
    }
}

#[test]
fn a_whole_segment_is_written_to_after_it_was_opened() {
    let mut s = fresh(1 << 20);
    s.set(b"a", b"1").unwrap();
    let mut s = open(s.files, 1 << 20);
    s.set(b"b", b"2").unwrap();
    assert_eq!(s.files.len(), 1);
    assert_eq!(s.log, ["append 1"]);
}

#[test]
fn a_failed_write_spoils_no_later_one() {
    let mut s = fresh(1 << 20);
    s.set(b"a", b"1").unwrap();
    for step in s.store.set(b"b", b"lost").unwrap() {
        if let Action::Append { bytes, .. } = step.action {
            s.files.get_mut("000001.flog").unwrap().extend(&bytes[..bytes.len() - 1]);
        }
    }
    let len = s.files["000001.flog"].len() as u64;
    s.store.failed(Some(len));
    assert_eq!(s.get(b"b").unwrap(), None);
    s.set(b"c", b"3").unwrap();
    assert_eq!(s.files["000002.flog"], encode(b"c", Some(b"3")));
    assert_eq!(s.all(&[b"a", b"b", b"c"]), [Some(b"1".to_vec()), None, Some(b"3".to_vec())]);
    let mut s = open(s.files, 1 << 20);
    assert_eq!(s.all(&[b"a", b"b", b"c"]), [Some(b"1".to_vec()), None, Some(b"3".to_vec())]);
}

#[test]
fn a_failed_sync_leaves_the_segment_in_use() {
    let mut s = fresh(1 << 20);
    s.store.set_sync_writes(true);
    let mut steps = s.store.set(b"a", b"1").unwrap();
    let sync = steps.pop().unwrap();
    assert!(matches!(sync.action, Action::Sync { id: 1 }));
    s.take_all(steps);
    let len = s.files["000001.flog"].len() as u64;
    s.store.failed(Some(len));
    assert_eq!(s.get(b"a").unwrap(), Some(b"1".to_vec()));
    s.set(b"b", b"2").unwrap();
    assert_eq!(s.store.segment_count(), 1);
    assert_eq!(s.log, ["append 1", "append 1", "Sync { id: 1 }"]);
    let mut s = open(s.files, 1 << 20);
    assert_eq!(s.all(&[b"a", b"b"]), [Some(b"1".to_vec()), Some(b"2".to_vec())]);
}

#[test]
fn an_append_that_wrote_nothing_leaves_the_segment_in_use() {
    let mut s = fresh(1 << 20);
    s.set(b"a", b"1").unwrap();
    let len = s.files["000001.flog"].len() as u64;
    assert_eq!(s.store.set(b"b", b"lost").unwrap().len(), 1);
    s.store.failed(Some(len));
    s.set(b"c", b"3").unwrap();
    assert_eq!(s.store.segment_count(), 1);
    assert_eq!(s.all(&[b"a", b"b", b"c"]), [Some(b"1".to_vec()), None, Some(b"3".to_vec())]);
}

#[test]
fn a_failure_that_leaves_the_length_unknown_ends_the_segment() {
    let mut s = fresh(1 << 20);
    s.set(b"a", b"1").unwrap();
    s.store.failed(None);
    s.set(b"b", b"2").unwrap();
    assert_eq!(s.store.active_id(), 2);
    assert_eq!(s.all(&[b"a", b"b"]), [Some(b"1".to_vec()), Some(b"2".to_vec())]);
}

#[test]
fn a_failed_roll_is_tried_again() {
    let mut s = fresh(10);
    s.set(b"a", b"1").unwrap();
    let len = s.files["000001.flog"].len() as u64;
    let first = s.store.set(b"b", b"2").unwrap().remove(0);
    assert!(matches!(first.action, Action::Sync { id: 1 }));
    s.store.failed(Some(len));
    assert_eq!(s.store.active_id(), 1);
    s.set(b"b", b"2").unwrap();
    assert_eq!(s.store.active_id(), 2);
    assert_eq!(s.all(&[b"a", b"b"]), [Some(b"1".to_vec()), Some(b"2".to_vec())]);
}

/// Segments with all that a log may hold, and may end in.
fn odd_segments() -> Vec<Vec<u8>> {
    let mut whole = encode(b"a", Some(b"1"));
    whole.extend(encode(b"", Some(b"")));
    whole.extend(encode(b"gone", Some(b"x")));
    whole.extend(encode(b"gone", None));
    whole.extend(encode(b"bin", Some(&[0, 255, 10, 13])));
    let mut segments: Vec<Vec<u8>> = (0..=whole.len()).map(|n| whole[..n].to_vec()).collect();
    for i in 0..whole.len() {
        let mut corrupt = whole.clone();
        corrupt[i] ^= 0x40;
        segments.push(corrupt);
    }
    let mut zeros = whole.clone();
    zeros.extend([0; 40]);
    segments.push(zeros);
    let mut huge = whole;
    huge.extend([0, 0, 0, 0, 0xfe, 0xff, 0xff, 0xff, 0, 0, 0, 0]);
    segments.push(huge);
    segments
}

#[test]
fn a_segment_read_in_pieces_is_replayed_as_a_whole_one() {
    for bytes in odd_segments() {
        let mut files = Files::new();
        files.insert(seg_path(3), encode(b"first", Some(b"f")));
        files.insert(seg_path(4), bytes);
        let mut whole = open(files.clone(), 1 << 20);
        let mut pieces = open_in_pieces(files, 1 << 20);
        assert_eq!(whole.store.len(), pieces.store.len());
        assert_eq!(whole.store.segment_count(), pieces.store.segment_count());
        let keys: [&[u8]; 5] = [b"first", b"a", b"", b"gone", b"bin"];
        assert_eq!(whole.all(&keys), pieces.all(&keys));
        whole.set(b"new", b"n").unwrap();
        pieces.set(b"new", b"n").unwrap();
        assert_eq!(whole.files, pieces.files);
    }
}

#[test]
fn pieces_are_headers_and_what_they_claim() {
    let mut opening = Store::open(&[seg_path(1)], 1 << 20);
    let bytes = encode(b"key", Some(b"value"));
    assert_eq!(opening.wanted(), 12);
    assert!(matches!(opening.feed(&bytes[..12], true), Ok(None)));
    assert_eq!(opening.wanted(), 8);
    assert!(matches!(opening.feed(&bytes[12..], true), Ok(None)));
    assert_eq!(opening.wanted(), 12);
    let deletion = encode(b"key", None);
    assert!(matches!(opening.feed(&deletion[..12], true), Ok(None)));
    assert_eq!(opening.wanted(), 3);
    assert!(matches!(opening.feed(&deletion[12..], true), Ok(None)));
    assert_eq!(opening.next(), Some(1));
    assert!(matches!(opening.feed(&[], true), Ok(Some(Action::OpenReader { id: 1 }))));
    assert_eq!(opening.next(), None);
    assert!(opening.finish(43).is_empty());
}

#[test]
fn reading_that_breaks_off_in_a_header_fails_the_opening() {
    let bytes = encode(b"key", Some(b"value"));
    for n in 0..12 {
        let mut opening = Store::open(&[seg_path(1)], 1 << 20);
        assert_eq!(opening.feed(&bytes[..n], false).err(), Some(StoreError::Unreadable));
    }
    let mut opening = Store::open(&[seg_path(1)], 1 << 20);
    assert!(matches!(opening.feed(&bytes[..12], false), Ok(None)));
    assert!(matches!(opening.feed(&bytes[12..15], false), Ok(Some(_))));
}

#[test]
fn readers_opened_between_the_copies_change_nothing() {
    let mut plain = worn();
    plain.compact();
    let mut mixed = worn();
    mixed.take(Step { action: Action::CloseReaders, effect: Effect::NotReading });
    mixed.compact();
    assert!(mixed.log.iter().filter(|l| l.starts_with("OpenReader")).count()
        > plain.log.iter().filter(|l| l.starts_with("OpenReader")).count());
    assert_eq!(plain.files, mixed.files);
    assert_eq!(plain.store.segment_count(), mixed.store.segment_count());
    let keys: [&[u8]; 3] = [b"hot", b"cold", b"live"];
    assert_eq!(plain.all(&keys), mixed.all(&keys));
}

#[test]
fn a_failed_compaction_spoils_nothing() {
    let count = worn().compaction_steps().len();
    for done in 0..count {
        let mut s = worn();
        for (i, step) in s.compaction_steps().into_iter().enumerate() {
            if i < done {
                s.take(step);
            } else if let (true, Action::Append { id, bytes }) = (i == done, step.action) {
                s.files.get_mut(&seg_path(id)).unwrap().extend(&bytes[..bytes.len() / 2]);
            }
        }
        assert_eq!(
            s.all(&[b"hot", b"cold", b"live"]),
            [Some(b"v5".to_vec()), None, Some(vec![])]
        );
        s.set(b"hot", b"newer").unwrap();
        s.delete(b"live");
        let expected = [Some(b"newer".to_vec()), None, None];
        assert_eq!(s.all(&[b"hot", b"cold", b"live"]), expected);
        assert_eq!(open(s.files.clone(), 40).all(&[b"hot", b"cold", b"live"]), expected);
        s.compact();
        assert_eq!(s.files.len(), 2);
        assert_eq!(s.all(&[b"hot", b"cold", b"live"]), expected);
        assert_eq!(open(s.files, 40).all(&[b"hot", b"cold", b"live"]), expected);
    }
}

#[test]
fn a_write_moves_nothing() {
    let mut s = fresh(40);
    for i in 0..6u32 {
        let before = s.files.clone();
        let active = s.store.active_id();
        s.set(b"k", &i.to_le_bytes()).unwrap();
        for (name, bytes) in &before {
            assert!(s.files[name].starts_with(bytes));
            assert!(*name == seg_path(active) || s.files[name] == *bytes);
        }
    }
}

#[test]
fn compaction_clears_a_torn_record_away() {
    let mut s = fresh(1 << 20);
    s.set(b"a", b"1").unwrap();
    s.files.get_mut("000001.flog").unwrap().extend(&encode(b"b", Some(b"2"))[..9]);
    let mut s = open(s.files, 1 << 20);
    s.compact();
    s.set(b"c", b"3").unwrap();
    let mut s = open(s.files, 1 << 20);
    assert_eq!(s.all(&[b"a", b"b", b"c"]), [Some(b"1".to_vec()), None, Some(b"3".to_vec())]);
}

#[test]
fn a_full_segment_with_a_torn_record_is_left_behind() {
    let mut s = fresh(10);
    s.set(b"a", b"1").unwrap();
    s.files.get_mut("000001.flog").unwrap().extend(&encode(b"b", Some(b"2"))[..9]);
    let mut s = open(s.files, 10);
    s.set(b"c", b"3").unwrap();
    let mut s = open(s.files, 10);
    assert_eq!(s.all(&[b"a", b"b", b"c"]), [Some(b"1".to_vec()), None, Some(b"3".to_vec())]);
}
