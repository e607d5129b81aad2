//! The shared key-value store and the dispatch of commands against it.
//!
//! The store is viewed as a mathematical map from byte-string keys to
//! byte-string values. One store is shared, behind a lock, by every
//! connection handler; each handler applies one command at a time.

use vstd::prelude::*;
use crate::command::{command_of, Command, CommandError, CommandModel};
use crate::frame::{Frame, FrameModel};

verus! {

/// The text of the acknowledgement answered to a successful SET.
pub open spec fn ok_text() -> Seq<u8> {
    seq![79u8, 75u8]
}

/// The mapping an entry list denotes: later entries shadow earlier ones.
pub open spec fn entries_map(es: Seq<(Vec<u8>, Vec<u8>)>) -> Map<Seq<u8>, Seq<u8>>
    decreases es.len(),
{
    if es.len() == 0 {
        Map::empty()
    } else {
        entries_map(es.drop_last()).insert(es.last().0@, es.last().1@)
    }
}

/// The key-value store: a list of entries, read as a map.
pub struct Store {
    entries: Vec<(Vec<u8>, Vec<u8>)>,
}

impl View for Store {
    type V = Map<Seq<u8>, Seq<u8>>;

    closed spec fn view(&self) -> Map<Seq<u8>, Seq<u8>> {
        entries_map(self.entries@)
    }
}

/// A key is in the entry map exactly when some entry carries it, and the
/// map then holds the value of the last such entry.
proof fn lemma_entries_map_lookup(es: Seq<(Vec<u8>, Vec<u8>)>, k: Seq<u8>)
    ensures
        entries_map(es).contains_key(k) <==> exists|i: int|
            0 <= i < es.len() && #[trigger] es[i].0@ == k,
        forall|i: int|
            0 <= i < es.len() && #[trigger] es[i].0@ == k && (forall|j: int|
                i < j < es.len() ==> #[trigger] es[j].0@ != k) ==> entries_map(es)[k]
                == es[i].1@,
    decreases es.len(),
{
    if es.len() > 0 {
        lemma_entries_map_lookup(es.drop_last(), k);
        let last = (es.len() - 1) as int;
        assert(forall|i: int| 0 <= i < last ==> es.drop_last()[i] == es[i]);
        assert(es[last] == es.last());
    }
}

/// Replacing the value of a key's newest entry reads, as a map, as an
/// insert of that key.
proof fn lemma_entries_map_update(es: Seq<(Vec<u8>, Vec<u8>)>, i: int, kv: (Vec<u8>, Vec<u8>))
    requires
        0 <= i < es.len(),
        es[i].0@ == kv.0@,
        forall|j: int| i < j < es.len() ==> #[trigger] es[j].0@ != kv.0@,
    ensures
        entries_map(es.update(i, kv)) == entries_map(es).insert(kv.0@, kv.1@),
    decreases es.len(),
{
    let u = es.update(i, kv);
    if i == es.len() - 1 {
        assert(u.drop_last() =~= es.drop_last());
        assert(u.last() == kv);
        assert(es.last().0@ == kv.0@);
        assert(entries_map(u) == entries_map(es.drop_last()).insert(kv.0@, kv.1@));
        assert(entries_map(es) == entries_map(es.drop_last()).insert(es.last().0@, es.last().1@));
        assert(entries_map(es).insert(kv.0@, kv.1@) =~= entries_map(es.drop_last()).insert(
            kv.0@,
            kv.1@,
        ));
    } else {
        let esd = es.drop_last();
        assert(u.drop_last() =~= esd.update(i, kv));
        assert(u.last() == es.last());
        assert(forall|j: int| i < j < esd.len() ==> #[trigger] esd[j].0@ != kv.0@);
        assert(esd[i] == es[i]);
        lemma_entries_map_update(esd, i, kv);
        assert(es.last().0@ != kv.0@);
        assert(entries_map(u) == entries_map(esd.update(i, kv)).insert(
            es.last().0@,
            es.last().1@,
        ));
        assert(entries_map(es) == entries_map(esd).insert(es.last().0@, es.last().1@));
        assert(entries_map(esd).insert(kv.0@, kv.1@).insert(es.last().0@, es.last().1@)
            =~= entries_map(esd).insert(es.last().0@, es.last().1@).insert(kv.0@, kv.1@));
    }
}

impl Store {
    /// A new, empty store.
    pub fn new() -> (r: Store)
        ensures
            r@ == Map::<Seq<u8>, Seq<u8>>::empty(),
    {
        Store { entries: Vec::new() }
    }

    /// Look up the value stored under `key`: exactly the mapped value
    /// when the key is present, nothing when it is absent.
    pub fn get(&self, key: &[u8]) -> (r: Option<Vec<u8>>)
        ensures
            match r {
                Some(v) => self@.contains_key(key@) && v@ == self@[key@] && v@.len()
                    <= usize::MAX,
                None => !self@.contains_key(key@),
            },
    {
        let mut i: usize = self.entries.len();
        while i > 0
            invariant
                i <= self.entries@.len(),
                forall|j: int| i <= j < self.entries@.len() ==> #[trigger] self.entries@[j].0@
                    != key@,
            decreases i,
        {
            i = i - 1;
            let hit = {
                let entry = &self.entries[i];
                bytes_equal(entry.0.as_slice(), key)
            };
            if hit {
                let entry = &self.entries[i];
                let v = crate::codec::copy_range(entry.1.as_slice(), 0, entry.1.len());
                proof {
                    let es = self.entries@;
                    lemma_entries_map_lookup(es, key@);
                    assert(es[i as int].0@ == key@);
                    assert(forall|j: int| (i as int) < j < es.len() ==> #[trigger] es[j].0@
                        != key@);
                    assert(self@.contains_key(key@));
                    assert(self@[key@] == es[i as int].1@);
                    assert(v@ =~= es[i as int].1@);
                }
                return Some(v);
            }
        }
        proof {
            lemma_entries_map_lookup(self.entries@, key@);
            if self@.contains_key(key@) {
                let w = choose|idx: int|
                    0 <= idx < self.entries@.len() && #[trigger] self.entries@[idx].0@ == key@;
                assert(false);
            }
        }
        None
    }

    /// Store `value` under `key`, overwriting any previous value: the
    /// entry is replaced in place when the key is present, else appended.
    pub fn set(&mut self, key: Vec<u8>, value: Vec<u8>)
        ensures
            final(self)@ == old(self)@.insert(key@, value@),
    {
        let mut i: usize = self.entries.len();
        while i > 0
            invariant
                i <= self.entries@.len(),
                self.entries@ == old(self).entries@,
                forall|j: int| i <= j < self.entries@.len() ==> #[trigger] self.entries@[j].0@
                    != key@,
            decreases i,
        {
            i = i - 1;
            let hit = {
                let entry = &self.entries[i];
                bytes_equal(entry.0.as_slice(), key.as_slice())
            };
            if hit {
                let ghost es = self.entries@;
                let e = &mut self.entries[i];
                e.1 = value;
                proof {
                    assert(self.entries@ == es.update(i as int, self.entries@[i as int]));
                    lemma_entries_map_update(es, i as int, self.entries@[i as int]);
                }
                return;
            }
        }
        let ghost es0 = self.entries@;
        self.entries.push((key, value));
        proof {
            assert(self.entries@.drop_last() =~= es0);
            assert(self.entries@.last() == (key, value));
        }
    }

    /// Apply one recognized command. GET answers the stored value as a
    /// bulk frame, or the null frame for an absent key, and leaves the
    /// store unchanged; SET stores the value and answers the OK text.
    /// An unrecognized command is fatal to its handler, so it is excluded.
    pub fn apply(&mut self, cmd: Command) -> (r: Frame)
        requires
            !(cmd is Unknown),
        ensures
            match cmd {
                Command::Get(k) => final(self)@ == old(self)@ && (if old(self)@.contains_key(
                    k@,
                ) {
                    r.model() == FrameModel::Bulk(old(self)@[k@])
                } else {
                    r.model() == FrameModel::Null
                }),
                Command::Put(k, v) => final(self)@ == old(self)@.insert(k@, v@) && r.model()
                    == FrameModel::Simple(ok_text()),
                Command::Unknown(_) => false,
            },
            r.model().wf() && !(r is Array),
    {
        match cmd {
            Command::Get(k) => {
                match self.get(k.as_slice()) {
                    Some(v) => Frame::Bulk(v),
                    None => Frame::Null,
                }
            }
            Command::Put(k, v) => {
                self.set(k, v);
                let mut text: Vec<u8> = Vec::new();
                text.push(79);
                text.push(75);
                proof {
                    assert(text@ =~= ok_text());
                    assert(forall|i: int| 0 <= i < ok_text().len() ==> #[trigger] ok_text()[i]
                        <= 127);
                    crate::frame::lemma_ascii_utf8(ok_text());
                }
                Frame::Simple(text)
            }
            Command::Unknown(_) => {
                proof {
                    assert(false);
                }
                Frame::Null
            }
        }
    }

    /// One dispatch step of a connection handler: decode the frame as a
    /// command and apply it. A frame that decodes to no command, or to a
    /// command nobody recognizes, is an error — fatal to the handler in
    /// this core, which the caller enacts by closing the connection.
    pub fn respond(&mut self, f: Frame) -> (r: Result<Frame, CommandError>)
        ensures
            match command_of(f.model()) {
                Ok(CommandModel::Get(k)) => final(self)@ == old(self)@ && r is Ok && (if old(
                    self,
                )@.contains_key(k) {
                    r->Ok_0.model() == FrameModel::Bulk(old(self)@[k])
                } else {
                    r->Ok_0.model() == FrameModel::Null
                }),
                Ok(CommandModel::Put(k, v)) => final(self)@ == old(self)@.insert(k, v) && r
                    is Ok && r->Ok_0.model() == FrameModel::Simple(ok_text()),
                Ok(CommandModel::Unknown(_)) => final(self)@ == old(self)@ && r
                    == Err::<Frame, CommandError>(CommandError::Unrecognized),
                Err(e) => final(self)@ == old(self)@ && r == Err::<Frame, CommandError>(e),
            },
            r is Ok ==> r->Ok_0.model().wf() && !(r->Ok_0 is Array),
    {
        match Command::from_frame(f) {
            Ok(cmd) => {
                if matches!(cmd, Command::Unknown(_)) {
                    Err(CommandError::Unrecognized)
                } else {
                    Ok(self.apply(cmd))
                }
            }
            Err(e) => Err(e),
        }
    }
}

/// Whether two byte strings hold the same bytes.
fn bytes_equal(a: &[u8], b: &[u8]) -> (r: bool)
    ensures
        r == (a@ == b@),
{
    if a.len() != b.len() {
        proof {
            assert(a@.len() != b@.len());
        }
        return false;
    }
    let mut i: usize = 0;
    while i < a.len()
        invariant
            i <= a@.len(),
            a@.len() == b@.len(),
            forall|j: int| 0 <= j < i ==> a@[j] == b@[j],
        decreases a@.len() - i,
    {
        if a[i] != b[i] {
            return false;
        }
        i = i + 1;
    }
    proof {
        assert(a@ =~= b@);
    }
    true
}

/// The map after one SET per listed operation, applied in order.
pub open spec fn apply_sets(
    m: Map<Seq<u8>, Seq<u8>>,
    ops: Seq<(Seq<u8>, Seq<u8>)>,
) -> Map<Seq<u8>, Seq<u8>>
    decreases ops.len(),
{
    if ops.len() == 0 {
        m
    } else {
        apply_sets(m, ops.drop_last()).insert(ops.last().0, ops.last().1)
    }
}

/// Whether no two listed operations share a key.
pub open spec fn distinct_keys(ops: Seq<(Seq<u8>, Seq<u8>)>) -> bool {
    forall|i: int, j: int| 0 <= i < j < ops.len() ==> ops[i].0 != ops[j].0
}

/// Concurrency safety at the model level: however the store's lock
/// serializes set operations on distinct keys, every one persists — the
/// resulting map holds each key with its own value — a key nobody set is
/// untouched, and from an empty store exactly as many entries remain as
/// operations ran.
pub proof fn lemma_distinct_sets_persist(m: Map<Seq<u8>, Seq<u8>>, ops: Seq<(Seq<u8>, Seq<u8>)>)
    requires
        distinct_keys(ops),
    ensures
        forall|i: int|
            0 <= i < ops.len() ==> apply_sets(m, ops).contains_key(#[trigger] ops[i].0)
                && apply_sets(m, ops)[ops[i].0] == ops[i].1,
        forall|k: Seq<u8>|
            #[trigger] apply_sets(m, ops).contains_key(k) <==> m.contains_key(k) || exists|i: int|
                0 <= i < ops.len() && #[trigger] ops[i].0 == k,
        forall|k: Seq<u8>|
            m.contains_key(k) && (forall|i: int| 0 <= i < ops.len() ==> #[trigger] ops[i].0 != k)
                ==> #[trigger] apply_sets(m, ops)[k] == m[k],
        m == Map::<Seq<u8>, Seq<u8>>::empty() ==> apply_sets(m, ops).dom().finite()
            && apply_sets(m, ops).len() == ops.len(),
    decreases ops.len(),
{
    if ops.len() == 0 {
        if m == Map::<Seq<u8>, Seq<u8>>::empty() {
            assert(m.dom() =~= Set::<Seq<u8>>::empty());
        }
    } else {
        let head = ops.drop_last();
        lemma_distinct_sets_persist(m, head);
        let a = apply_sets(m, head);
        let kn = ops.last().0;
        assert(forall|i: int| 0 <= i < head.len() ==> head[i] == ops[i]);
        assert(forall|i: int| 0 <= i < ops.len() - 1 ==> #[trigger] ops[i].0 != kn);
        if m == Map::<Seq<u8>, Seq<u8>>::empty() {
            assert(!a.contains_key(kn));
            assert(apply_sets(m, ops).dom() =~= a.dom().insert(kn));
        }
    }
}

/// Store visibility: after a set of `k` to `v`, a get of `k` through any
/// handler sharing the store answers `v` — sets of other keys do not
/// disturb it — until `k` itself is overwritten, and then the newest
/// value wins.
pub proof fn lemma_set_visible(
    m: Map<Seq<u8>, Seq<u8>>,
    k: Seq<u8>,
    v: Seq<u8>,
    k2: Seq<u8>,
    v2: Seq<u8>,
)
    ensures
        m.insert(k, v).contains_key(k) && m.insert(k, v)[k] == v,
        k2 != k ==> m.insert(k, v).insert(k2, v2).contains_key(k) && m.insert(k, v).insert(
            k2,
            v2,
        )[k] == v,
        m.insert(k, v).insert(k, v2)[k] == v2,
{
}

} // verus!
