//! The grouped view of the trace log: its entries put into one bucket for
//! each function that occurs in it.

use crate::elf_reader::FunType;
use crate::manager::{CurReader, FrameModel, Manager};
use crate::model::TracerModel;
use vstd::prelude::*;

verus! {

/// What a bucket is made for: a record of an image with its
/// classification, or the frames without an image.
pub struct GroupKey {
    pub id: u32,
    pub reader: Option<CurReader>,
    pub func_type: FunType,
}

/// One bucket of the grouped view: what it is made for, and the time stamp
/// and the frame of each entry that belongs to it, in the order of the log.
#[derive(Debug)]
pub struct LogGroup {
    pub id: u32,
    pub reader: Option<CurReader>,
    pub func_type: FunType,
    pub entries: Vec<(u64, usize)>,
}

/// What a [`LogGroup`] holds.
pub struct GroupModel {
    pub key: GroupKey,
    pub entries: Seq<(u64, usize)>,
}

impl View for LogGroup {
    type V = GroupModel;

    open spec fn view(&self) -> GroupModel {
        GroupModel {
            key: GroupKey { id: self.id, reader: self.reader, func_type: self.func_type },
            entries: self.entries@,
        }
    }
}

/// The models of a sequence of buckets.
pub open spec fn group_models(groups: Seq<LogGroup>) -> Seq<GroupModel> {
    Seq::new(groups.len(), |g: int| groups[g]@)
}

/// The bucket that a frame belongs to: that of its image, record and
/// classification, or the one bucket of all frames without an image.
pub open spec fn key_of(f: FrameModel) -> GroupKey {
    if f.reader is Some {
        GroupKey { id: f.id, reader: f.reader, func_type: f.func_type }
    } else {
        GroupKey { id: 0, reader: None, func_type: FunType::ExternalFunc }
    }
}

/// The entries among the first `n` of the log that belong to `key`, each
/// with its time stamp, in the order of the log.
pub open spec fn entries_upto(m: TracerModel, key: GroupKey, n: int) -> Seq<(u64, usize)>
    decreases n,
{
    if n <= 0 {
        Seq::empty()
    } else if key_of(m.log_frame(n - 1)) == key {
        entries_upto(m, key, n - 1).push((m.times[n - 1], m.log[n - 1]))
    } else {
        entries_upto(m, key, n - 1)
    }
}

/// The buckets of the first `n` entries of the log, in the order in which
/// they first occur.
pub open spec fn keys_upto(m: TracerModel, n: int) -> Seq<GroupKey>
    decreases n,
{
    if n <= 0 {
        Seq::empty()
    } else if keys_upto(m, n - 1).contains(key_of(m.log_frame(n - 1))) {
        keys_upto(m, n - 1)
    } else {
        keys_upto(m, n - 1).push(key_of(m.log_frame(n - 1)))
    }
}

/// The grouped view of the first `n` entries of the log.
pub open spec fn grouped_upto(m: TracerModel, n: int) -> Seq<GroupModel> {
    Seq::new(
        keys_upto(m, n).len(),
        |g: int| GroupModel { key: keys_upto(m, n)[g], entries: entries_upto(m, keys_upto(m, n)[g], n) },
    )
}

/// The grouped view of the log: one bucket for each function that occurs,
/// in the order of first occurrence, each with all its entries.
pub open spec fn grouped(m: TracerModel) -> Seq<GroupModel> {
    grouped_upto(m, m.log.len() as int)
}

/// No bucket occurs twice, every bucket has an entry, and the first entry
/// of a bucket is the entry of the log at which the bucket first occurs.
pub proof fn lemma_keys_upto(m: TracerModel, n: int)
    requires
        0 <= n <= m.log.len(),
        m.log.len() == m.times.len(),
    ensures
        forall|a: int, b: int|
            0 <= a < b < keys_upto(m, n).len() ==> keys_upto(m, n)[a] != keys_upto(m, n)[b],
        forall|g: int|
            0 <= g < keys_upto(m, n).len() ==> entries_upto(
                m,
                #[trigger] keys_upto(m, n)[g],
                n,
            ).len() > 0,
        forall|k: GroupKey| !keys_upto(m, n).contains(k) ==> (#[trigger] entries_upto(m, k, n)).len() == 0,
    decreases n,
{
    if n > 0 {
        lemma_keys_upto(m, n - 1);
        let before = keys_upto(m, n - 1);
        let k = key_of(m.log_frame(n - 1));
        let now = keys_upto(m, n);
        if before.contains(k) {
            assert forall|g: int| 0 <= g < now.len() implies entries_upto(
                m,
                #[trigger] now[g],
                n,
            ).len() > 0 by {
                assert(entries_upto(m, before[g], n - 1).len() > 0);
            }
            assert forall|x: GroupKey| !now.contains(x) implies (#[trigger] entries_upto(
                m,
                x,
                n,
            )).len() == 0 by {
                assert(entries_upto(m, x, n - 1).len() == 0);
            }
        } else {
            assert forall|a: int, b: int| 0 <= a < b < now.len() implies now[a] != now[b] by {
                if b == now.len() - 1 {
                    assert(before[a] == now[a]);
                    assert(before.contains(before[a]));
                }
            }
            assert forall|g: int| 0 <= g < now.len() implies entries_upto(
                m,
                #[trigger] now[g],
                n,
            ).len() > 0 by {
                if g < before.len() {
                    assert(now[g] == before[g]);
                    assert(entries_upto(m, before[g], n - 1).len() > 0);
                }
            }
            assert forall|x: GroupKey| !now.contains(x) implies (#[trigger] entries_upto(
                m,
                x,
                n,
            )).len() == 0 by {
                assert(now[now.len() - 1] == k);
                if before.contains(x) {
                    let i = choose|i: int| 0 <= i < before.len() && before[i] == x;
                    assert(now[i] == x);
                }
                assert(entries_upto(m, x, n - 1).len() == 0);
            }
        }
    }
}

/// The entries of a bucket stand in the order of their time stamps, and the
/// buckets stand in the order of their earliest time stamps.
pub proof fn lemma_grouped_by_time(m: TracerModel, n: int)
    requires
        0 <= n <= m.log.len(),
        m.times_ok(),
    ensures
        forall|k: GroupKey, x: int|
            0 <= x < entries_upto(m, k, n).len() ==> n > 0 && (#[trigger] entries_upto(
                m,
                k,
                n,
            )[x]).0 <= m.times[n - 1],
        forall|k: GroupKey, x: int, y: int|
            0 <= x <= y < entries_upto(m, k, n).len() ==> (#[trigger] entries_upto(m, k, n)[x]).0 <= (
            #[trigger] entries_upto(m, k, n)[y]).0,
        forall|a: int, b: int|
            0 <= a < b < keys_upto(m, n).len() ==> entries_upto(
                m,
                #[trigger] keys_upto(m, n)[a],
                n,
            )[0].0 <= entries_upto(m, #[trigger] keys_upto(m, n)[b], n)[0].0,
    decreases n,
{
    if n > 0 {
        lemma_grouped_by_time(m, n - 1);
        lemma_keys_upto(m, n - 1);
        lemma_keys_upto(m, n);
        let last = key_of(m.log_frame(n - 1));
        let before = keys_upto(m, n - 1);
        let now = keys_upto(m, n);
        assert forall|k: GroupKey, x: int| 0 <= x < entries_upto(m, k, n).len() implies (
        #[trigger] entries_upto(m, k, n)[x]).0 <= m.times[n - 1] by {
            if x < entries_upto(m, k, n - 1).len() {
                assert(entries_upto(m, k, n)[x] == entries_upto(m, k, n - 1)[x]);
                assert(entries_upto(m, k, n - 1)[x].0 <= m.times[n - 2]);
            }
        }
        assert forall|k: GroupKey, x: int, y: int|
            0 <= x <= y < entries_upto(m, k, n).len() implies (#[trigger] entries_upto(
            m,
            k,
            n,
        )[x]).0 <= (#[trigger] entries_upto(m, k, n)[y]).0 by {
            let old_len = entries_upto(m, k, n - 1).len();
            if y < old_len {
                assert(entries_upto(m, k, n)[x] == entries_upto(m, k, n - 1)[x]);
                assert(entries_upto(m, k, n)[y] == entries_upto(m, k, n - 1)[y]);
            } else if x < old_len {
                assert(entries_upto(m, k, n)[x] == entries_upto(m, k, n - 1)[x]);
                assert(entries_upto(m, k, n - 1)[x].0 <= m.times[n - 2]);
            }
        }
        assert forall|a: int, b: int| 0 <= a < b < now.len() implies entries_upto(
            m,
            #[trigger] now[a],
            n,
        )[0].0 <= entries_upto(m, #[trigger] now[b], n)[0].0 by {
            assert(now[a] == before[a]);
            assert(entries_upto(m, before[a], n - 1).len() > 0);
            assert(entries_upto(m, now[a], n)[0] == entries_upto(m, before[a], n - 1)[0]);
            if b < before.len() {
                assert(now[b] == before[b]);
                assert(entries_upto(m, before[b], n - 1).len() > 0);
                assert(entries_upto(m, now[b], n)[0] == entries_upto(m, before[b], n - 1)[0]);
            } else {
                assert(now[b] == last);
                assert(!before.contains(last));
                assert(entries_upto(m, last, n - 1).len() == 0);
                assert(entries_upto(m, before[a], n - 1)[0].0 <= m.times[n - 2]);
            }
        }
    }
}

/// Whether the two name the same image, or both none.
fn same_reader(a: Option<CurReader>, b: Option<CurReader>) -> (same: bool)
    ensures
        same == (a == b),
{
    match (a, b) {
        (None, None) => true,
        (Some(x), Some(y)) => x == y,
        _ => false,
    }
}

/// The grouped view of the tracer's log: one bucket for each function that
/// occurs in the log, in the order of first occurrence, each with the time
/// stamp and the frame of every entry of that function, in the order of the
/// log.
pub fn log_translation(manager: &Manager) -> (groups: Vec<LogGroup>)
    requires
        manager.wf(),
    ensures
        group_models(groups@) == grouped(manager@),
{
    let log = manager.trace_log();
    let ghost m = manager@;
    let n: usize = log.len();
    let mut groups: Vec<LogGroup> = Vec::new();
    let mut i: usize = 0;
    assert(group_models(groups@) =~= grouped_upto(m, 0));
    while i < n
        invariant
            i <= n,
            n == m.log.len(),
            m == manager@,
            manager.wf(),
            log@ == m.log,
            group_models(groups@) == grouped_upto(m, i as int),
        decreases n - i,
    {
        let handle: usize = log[i];
        let frame = manager.frame(handle).unwrap();
        assert(frame@ == m.log_frame(i as int));
        let t: u64 = manager.get_time_from_index(i);
        let reader = frame.reader();
        let has_image: bool = reader.is_some();
        let id: u32 = if has_image {
            frame.id()
        } else {
            0
        };
        let func_type: FunType = if has_image {
            frame.func_type()
        } else {
            FunType::ExternalFunc
        };
        let ghost key = GroupKey { id, reader, func_type };
        assert(key == key_of(m.log_frame(i as int)));
        let ghost before = grouped_upto(m, i as int);
        let ghost keys = keys_upto(m, i as int);
        proof {
            lemma_keys_upto(m, i as int);
        }
        let count: usize = groups.len();
        let mut g: usize = 0;
        let mut found: bool = false;
        assert(group_models(groups@).len() == count);
        assert(before.len() == keys.len());
        while g < count
            invariant_except_break
                !found,
            invariant
                g <= count,
                count == groups@.len(),
                count == keys.len(),
                group_models(groups@) == before,
                before == grouped_upto(m, i as int),
                keys == keys_upto(m, i as int),
                key == (GroupKey { id, reader, func_type }),
                forall|j: int| 0 <= j < g ==> keys[j] != key,
            ensures
                g <= count,
                found ==> g < count && keys[g as int] == key,
                !found ==> g == count,
                forall|j: int| 0 <= j < g ==> keys[j] != key,
            decreases count - g,
        {
            let group = &groups[g];
            assert(before[g as int] == group@);
            if group.id == id && group.func_type == func_type && same_reader(
                group.reader,
                reader,
            ) {
                found = true;
                break ;
            }
            g = g + 1;
        }
        if found {
            groups[g].entries.push((t, handle));
        } else {
            let mut entries: Vec<(u64, usize)> = Vec::new();
            entries.push((t, handle));
            groups.push(LogGroup { id, reader, func_type, entries });
        }
        proof {
            let after = grouped_upto(m, i + 1);
            let keys_after = keys_upto(m, i + 1);
            if found {
                assert(keys.contains(key));
                assert(keys_after == keys);
            } else {
                assert(!keys.contains(key));
                assert(entries_upto(m, key, i as int).len() == 0);
                assert(entries_upto(m, key, i + 1) =~= seq![(t, handle)]);
            }
            assert(group_models(groups@).len() == after.len());
            assert forall|j: int| 0 <= j < after.len() implies group_models(groups@)[j]
                == after[j] by {
                if j < keys.len() {
                    assert(keys_after[j] == keys[j]);
                    assert(before[j].key == keys[j]);
                    if found && j == g {
                    } else {
                        assert(keys[j] != key);
                    }
                }
            }
            assert(group_models(groups@) =~= after);
        }
        i = i + 1;
    }
    groups
}

} // verus!
