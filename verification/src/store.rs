//! The store: segments, recovery, the read/write path and compaction.
//!
//! The store is the in-process owner of the log.  Segments are held as byte
//! vectors, ascending by generation; the last one is the current segment,
//! the only one appended to.  The store performs no file I/O itself: every
//! mutation also pushes [`FileOp`] instructions that the embedding applies,
//! in order, to the files of the backing directory, so that the directory
//! always holds exactly the bytes the store holds and a later `open` replays
//! them to the same mapping.

use vstd::prelude::*;

use crate::KvsError;
use crate::codec::{
    Command, CommandV, cmd_fits, enc, parse_log, parse_rec, lemma_parse_exact, lemma_parse_enc,
    lemma_parse_log_snoc, encode_put, encode_remove, decode_cmd, copy_range, push_bytes,
    pow256,
};
use crate::index::{Index, Locator};

verus! {

/// Compaction runs as soon as more than this many stale bytes have
/// accumulated.
pub const COMPACTION_THRESHOLD: u64 = 1024 * 1024;

/// One segment of the log: an append-only file image, identified by its
/// generation number.
pub struct Segment {
    /// The generation number; the file is named after it.
    pub generation: u64,
    /// The bytes of the segment: a concatenation of records.
    pub data: Vec<u8>,
}

/// One instruction for keeping the backing directory in sync with the
/// store's segments.
pub enum FileOp {
    /// Append `bytes` to the segment file of this generation and flush it.
    Append { generation: u64, bytes: Vec<u8> },
    /// Create the segment file of this generation holding exactly `bytes`,
    /// and flush it; the file must not exist yet.
    Create { generation: u64, bytes: Vec<u8> },
    /// Delete the segment file of this generation.
    Delete { generation: u64 },
}

/// The byte contents of each segment, in order.
pub open spec fn seg_bytes(segs: Seq<Segment>) -> Seq<Seq<u8>> {
    segs.map_values(|s: Segment| s.data@)
}

/// Generation numbers strictly increase along the sequence.
pub open spec fn gens_ascending(segs: Seq<Segment>) -> bool {
    forall|i: int, j: int|
        0 <= i < j < segs.len() ==> segs[i].generation < segs[j].generation
}

/// One command applied to the mapping the store stands for.
pub open spec fn apply_cmd(m: Map<Seq<u8>, Seq<u8>>, c: CommandV) -> Map<Seq<u8>, Seq<u8>> {
    match c {
        CommandV::Put { key, value } => m.insert(key, value),
        CommandV::Remove { key } => m.remove(key),
    }
}

/// A sequence of commands applied in order.
pub open spec fn replay_cmds(m: Map<Seq<u8>, Seq<u8>>, cs: Seq<CommandV>) -> Map<Seq<u8>, Seq<u8>>
    decreases cs.len(),
{
    if cs.len() == 0 {
        m
    } else {
        replay_cmds(apply_cmd(m, cs[0]), cs.skip(1))
    }
}

/// Segment contents replayed in order on top of `m`; `None` when any segment
/// is malformed.
pub open spec fn replay_segments(m: Map<Seq<u8>, Seq<u8>>, logs: Seq<Seq<u8>>) -> Option<
    Map<Seq<u8>, Seq<u8>>,
>
    decreases logs.len(),
{
    if logs.len() == 0 {
        Some(m)
    } else {
        match parse_log(logs[0]) {
            None => None,
            Some(cs) => replay_segments(replay_cmds(m, cs), logs.skip(1)),
        }
    }
}

/// The mapping a set of segment files stands for: the whole log replayed
/// from nothing.
pub open spec fn replay_all(logs: Seq<Seq<u8>>) -> Option<Map<Seq<u8>, Seq<u8>>> {
    replay_segments(Map::empty(), logs)
}

/// The saturating total length of a set of segment contents: what the
/// stale-byte counter restarts at on open.  It counts live bytes too, an
/// overcount that only hastens the next compaction.
pub open spec fn sat_len_sum(logs: Seq<Seq<u8>>) -> u64
    decreases logs.len(),
{
    if logs.len() == 0 {
        0
    } else {
        if sat_len_sum(logs.drop_last()) + logs.last().len() > u64::MAX {
            u64::MAX
        } else {
            (sat_len_sum(logs.drop_last()) + logs.last().len()) as u64
        }
    }
}

/// The remainder of one segment, from `pos` on, replayed on top of `m`.
pub open spec fn replay_from(m: Map<Seq<u8>, Seq<u8>>, s: Seq<u8>, pos: int) -> Option<
    Map<Seq<u8>, Seq<u8>>,
> {
    match parse_log(s.skip(pos)) {
        None => None,
        Some(cs) => Some(replay_cmds(m, cs)),
    }
}

/// Segment `j` holds, at the range `loc` names, exactly the record binding
/// `k` to `v`.
pub open spec fn seg_holds(segs: Seq<Segment>, j: int, loc: Locator, k: Seq<u8>, v: Seq<u8>) -> bool {
    &&& 0 <= j < segs.len()
    &&& segs[j].generation == loc.generation
    &&& loc.start <= loc.end
    &&& loc.end <= segs[j].data@.len()
    &&& cmd_fits((CommandV::Put { key: k, value: v }))
    &&& segs[j].data@.subrange(loc.start as int, loc.end as int) == enc(
        (CommandV::Put { key: k, value: v }),
    )
}

/// Some segment holds, at the range `loc` names, the record binding `k` to
/// `v`.
pub open spec fn locator_ok(segs: Seq<Segment>, loc: Locator, k: Seq<u8>, v: Seq<u8>) -> bool {
    exists|j: int| seg_holds(segs, j, loc, k, v)
}

/// An index entry freshly written by compaction: it points into the new
/// segment's bytes at exactly the record binding `k` to `v`.
spec fn compaction_entry_ok(loc: Locator, generation: u64, data: Seq<u8>, k: Seq<u8>, v: Seq<u8>) -> bool {
    &&& loc.generation == generation
    &&& loc.start <= loc.end
    &&& loc.end <= data.len()
    &&& cmd_fits((CommandV::Put { key: k, value: v }))
    &&& data.subrange(loc.start as int, loc.end as int) == enc((CommandV::Put { key: k, value: v }))
}

/// Replaying one more command at the tail.
proof fn lemma_replay_cmds_push(m: Map<Seq<u8>, Seq<u8>>, cs: Seq<CommandV>, c: CommandV)
    ensures
        replay_cmds(m, cs.push(c)) == apply_cmd(replay_cmds(m, cs), c),
    decreases cs.len(),
{
    if cs.len() == 0 {
        assert(cs.push(c)[0] == c);
        assert(cs.push(c).skip(1) =~= Seq::<CommandV>::empty());
        assert(replay_cmds(m, cs.push(c)) == replay_cmds(
            apply_cmd(m, c),
            cs.push(c).skip(1),
        ));
        assert(replay_cmds(apply_cmd(m, c), Seq::<CommandV>::empty()) == apply_cmd(m, c));
    } else {
        assert(cs.push(c)[0] == cs[0]);
        assert(cs.push(c).skip(1) =~= cs.skip(1).push(c));
        assert(replay_cmds(m, cs.push(c)) == replay_cmds(
            apply_cmd(m, cs[0]),
            cs.skip(1).push(c),
        ));
        lemma_replay_cmds_push(apply_cmd(m, cs[0]), cs.skip(1), c);
    }
}

/// Replaying one more segment at the tail.
proof fn lemma_replay_segments_push(m: Map<Seq<u8>, Seq<u8>>, logs: Seq<Seq<u8>>, s: Seq<u8>)
    ensures
        replay_segments(m, logs.push(s)) == (match replay_segments(m, logs) {
            None => None::<Map<Seq<u8>, Seq<u8>>>,
            Some(m2) => match parse_log(s) {
                None => None,
                Some(cs) => Some(replay_cmds(m2, cs)),
            },
        }),
    decreases logs.len(),
{
    if logs.len() == 0 {
        assert(logs.push(s)[0] == s);
        assert(logs.push(s).skip(1) =~= Seq::<Seq<u8>>::empty());
        match parse_log(s) {
            None => {},
            Some(cs) => {
                assert(replay_segments(m, logs.push(s)) == replay_segments(
                    replay_cmds(m, cs),
                    logs.push(s).skip(1),
                ));
                assert(replay_segments(replay_cmds(m, cs), Seq::<Seq<u8>>::empty())
                    == Some(replay_cmds(m, cs)));
            },
        }
    } else {
        assert(logs.push(s)[0] == logs[0]);
        assert(logs.push(s).skip(1) =~= logs.skip(1).push(s));
        match parse_log(logs[0]) {
            None => {},
            Some(cs) => {
                assert(replay_segments(m, logs.push(s)) == replay_segments(
                    replay_cmds(m, cs),
                    logs.skip(1).push(s),
                ));
                lemma_replay_segments_push(replay_cmds(m, cs), logs.skip(1), s);
            },
        }
    }
}

/// Appending one record to the last segment replays to one more command
/// applied.
proof fn lemma_replay_extend_last(
    segs: Seq<Segment>,
    segs2: Seq<Segment>,
    c: CommandV,
    m: Map<Seq<u8>, Seq<u8>>,
)
    requires
        segs.len() >= 1,
        segs2.len() == segs.len(),
        replay_all(seg_bytes(segs)) == Some(m),
        cmd_fits(c),
        forall|j: int| 0 <= j < segs.len() - 1 ==> segs2[j] == segs[j],
        segs2.last().data@ == segs.last().data@ + enc(c),
    ensures
        replay_all(seg_bytes(segs2)) == Some(apply_cmd(m, c)),
{
    let init = seg_bytes(segs).take(segs.len() - 1);
    let last = segs.last().data@;
    assert(seg_bytes(segs) =~= init.push(last));
    lemma_replay_segments_push(Map::empty(), init, last);
    let m1 = replay_segments(Map::empty(), init)->Some_0;
    let cs = parse_log(last)->Some_0;
    assert(replay_cmds(m1, cs) == m);
    let init2 = seg_bytes(segs2).take(segs2.len() - 1);
    assert(init2 =~= init);
    assert(seg_bytes(segs2) =~= init.push(last + enc(c)));
    lemma_parse_log_snoc(last, c);
    lemma_replay_segments_push(Map::empty(), init, last + enc(c));
    lemma_replay_cmds_push(m1, cs, c);
}

/// Replaying a command sequence that opens with `c`.
proof fn lemma_replay_cmds_cons(m: Map<Seq<u8>, Seq<u8>>, c: CommandV, r: Seq<CommandV>)
    ensures
        replay_cmds(m, seq![c] + r) == replay_cmds(apply_cmd(m, c), r),
{
    assert((seq![c] + r)[0] == c);
    assert((seq![c] + r).skip(1) =~= r);
}

/// If the whole log replays, the prefix before each position replays too;
/// the step form used by the replay loop.
proof fn lemma_parse_log_step(s: Seq<u8>, pos: int, c: CommandV, n: int)
    requires
        0 <= pos,
        0 < n,
        pos + n <= s.len(),
        parse_rec(s.skip(pos)) == Some((c, n)),
    ensures
        parse_log(s.skip(pos)) == (match parse_log(s.skip(pos + n)) {
            None => None::<Seq<CommandV>>,
            Some(r) => Some(seq![c] + r),
        }),
{
    assert(s.skip(pos).skip(n) =~= s.skip(pos + n));
}

/// The persistent key-value store: a mapping from byte-string keys to
/// byte-string values, durable as an append-only generational log.
pub struct KvStore {
    segments: Vec<Segment>,
    index: Index,
    current_generation: u64,
    uncompacted: u64,
    pending: Vec<FileOp>,
    model: Ghost<Map<Seq<u8>, Seq<u8>>>,
}

impl View for KvStore {
    type V = Map<Seq<u8>, Seq<u8>>;

    closed spec fn view(&self) -> Map<Seq<u8>, Seq<u8>> {
        self.model@
    }
}

impl KvStore {
    /// The store's internal invariant: segments ascend to the current
    /// generation, the index names exactly the keys of the mapping, each
    /// index entry locates the record of its key's current value, and the
    /// whole log replays to exactly the mapping.
    pub closed spec fn wf(self) -> bool {
        &&& self.segments@.len() >= 1
        &&& gens_ascending(self.segments@)
        &&& self.segments@.last().generation == self.current_generation
        &&& self.index.wf()
        &&& forall|k: Seq<u8>|
            #![trigger self.index@.contains_key(k)]
            #![trigger self.model@.contains_key(k)]
            self.index@.contains_key(k) <==> self.model@.contains_key(k)
        &&& forall|k: Seq<u8>|
            #[trigger] self.index@.contains_key(k) ==> locator_ok(
                self.segments@,
                self.index@[k],
                k,
                self.model@[k],
            )
        &&& replay_all(seg_bytes(self.segments@)) == Some(self.model@)
    }

    /// The current (highest, append-only) generation number.
    pub closed spec fn cur_gen(self) -> u64 {
        self.current_generation
    }

    /// The running count of stale bytes that drives compaction.
    pub closed spec fn stale_bytes(self) -> u64 {
        self.uncompacted
    }

    /// The byte contents of the store's segments, ascending by generation.
    pub closed spec fn seg_views(self) -> Seq<Seq<u8>> {
        seg_bytes(self.segments@)
    }

    /// The generation numbers of the store's segments, ascending.
    pub closed spec fn generations(self) -> Seq<u64> {
        self.segments@.map_values(|s: Segment| s.generation)
    }

    /// The file instructions issued since the last `take_ops`.
    pub closed spec fn pending_ops(self) -> Seq<FileOp> {
        self.pending@
    }

    /// Recovery idempotence: the segments of a well-formed store replay to
    /// exactly its mapping, so an `open` on the same segment bytes yields a
    /// store with the same mapping.
    pub proof fn lemma_recovery_idempotent(self)
        requires
            self.wf(),
        ensures
            replay_all(self.seg_views()) == Some(self@),
    {
    }

    /// Opens a store over the segment file images found in the backing
    /// directory, given ascending by generation; replays them to rebuild the
    /// index, then starts a fresh current segment one generation above the
    /// highest found (1 when none exist).  Fails with `Corrupt` when the
    /// segments are out of order or any record is malformed, and with
    /// `GenerationsExhausted` when no fresh generation number is left.
    pub fn open(segments: Vec<Segment>) -> (r: Result<KvStore, KvsError>)
        ensures
            match r {
                Ok(store) => {
                    &&& store.wf()
                    &&& gens_ascending(segments@)
                    &&& Some(store@) == replay_all(seg_bytes(segments@))
                    &&& store.cur_gen() == (if segments@.len() == 0 {
                        1u64
                    } else {
                        (segments@.last().generation + 1) as u64
                    })
                    &&& store.stale_bytes() == sat_len_sum(seg_bytes(segments@))
                    &&& store.pending_ops().len() == 1
                    &&& (store.pending_ops()[0] matches FileOp::Create { generation, bytes }
                        && generation == store.cur_gen() && bytes@ == Seq::<u8>::empty())
                },
                Err(e) => {
                    ||| (e == KvsError::Corrupt && !(gens_ascending(segments@) && replay_all(
                        seg_bytes(segments@),
                    ) is Some))
                    ||| (e == KvsError::GenerationsExhausted && segments@.len() > 0
                        && segments@.last().generation == u64::MAX)
                },
            },
            gens_ascending(segments@) && replay_all(seg_bytes(segments@)) is Some && (
            segments@.len() == 0 || segments@.last().generation < u64::MAX) ==> r is Ok,
    {
        let n: usize = segments.len();
        let mut i: usize = 1;
        while i < n
            invariant
                1 <= i,
                n == segments@.len(),
                i <= n || n == 0,
                forall|j: int| 0 < j < i ==> #[trigger] segments@[j].generation > segments@[j - 1].generation,
            decreases n - i,
        {
            if segments[i - 1].generation >= segments[i].generation {
                proof {
                    assert(!gens_ascending(segments@));
                }
                return Err(KvsError::Corrupt);
            }
            i = i + 1;
        }
        proof {
            lemma_adjacent_ascending(segments@);
        }

        let mut idx = Index::new();
        let ghost mut m: Map<Seq<u8>, Seq<u8>> = Map::empty();
        let mut uncompacted: u64 = 0;
        let mut si: usize = 0;
        proof {
            assert(seg_bytes(segments@).skip(0) =~= seg_bytes(segments@));
        }
        while si < n
            invariant
                si <= n,
                n == segments@.len(),
                gens_ascending(segments@),
                idx.wf(),
                forall|k: Seq<u8>|
                    #![trigger idx@.contains_key(k)]
                    #![trigger m.contains_key(k)]
                    idx@.contains_key(k) <==> m.contains_key(k),
                forall|k: Seq<u8>|
                    #[trigger] idx@.contains_key(k) ==> locator_ok(
                        segments@.take(si as int),
                        idx@[k],
                        k,
                        m[k],
                    ),
                replay_all(seg_bytes(segments@)) == replay_segments(
                    m,
                    seg_bytes(segments@).skip(si as int),
                ),
                uncompacted == sat_len_sum(seg_bytes(segments@).take(si as int)),
            decreases n - si,
        {
            let ghost m_entry = m;
            let data_len: usize = segments[si].data.len();
            let mut pos: usize = 0;
            proof {
                assert(segments@[si as int].data@.skip(0) =~= segments@[si as int].data@);
                assert forall|k: Seq<u8>| #[trigger] idx@.contains_key(k) implies locator_ok(
                    segments@.take(si as int + 1),
                    idx@[k],
                    k,
                    m[k],
                ) by {
                    let j = choose|j: int|
                        seg_holds(segments@.take(si as int), j, idx@[k], k, m[k]);
                    assert(seg_holds(segments@.take(si as int + 1), j, idx@[k], k, m[k]));
                }
            }
            while pos < data_len
                invariant
                    pos <= data_len,
                    si < n,
                    n == segments@.len(),
                    data_len == segments@[si as int].data@.len(),
                    gens_ascending(segments@),
                    idx.wf(),
                    forall|k: Seq<u8>|
                        #![trigger idx@.contains_key(k)]
                        #![trigger m.contains_key(k)]
                        idx@.contains_key(k) <==> m.contains_key(k),
                    forall|k: Seq<u8>|
                        #[trigger] idx@.contains_key(k) ==> locator_ok(
                            segments@.take(si as int + 1),
                            idx@[k],
                            k,
                            m[k],
                        ),
                    replay_from(m, segments@[si as int].data@, pos as int) == replay_from(
                        m_entry,
                        segments@[si as int].data@,
                        0,
                    ),
                    replay_all(seg_bytes(segments@)) == replay_segments(
                        m_entry,
                        seg_bytes(segments@).skip(si as int),
                    ),
                decreases data_len - pos,
            {
                let decoded = decode_cmd(&segments[si].data, pos);
                match decoded {
                    Err(_) => {
                        proof {
                            lemma_open_abort(segments@, m, m_entry, si as int, pos as int);
                        }
                        return Err(KvsError::Corrupt);
                    },
                    Ok((cmd, newpos)) => {
                        let ghost data = segments@[si as int].data@;
                        let ghost c = cmd@;
                        let ghost m0 = m;
                        let ghost idx0 = idx;
                        proof {
                            lemma_parse_exact(data.skip(pos as int));
                            lemma_parse_log_step(
                                data,
                                pos as int,
                                c,
                                newpos as int - pos as int,
                            );
                            assert(data.skip(pos as int).subrange(
                                0,
                                newpos as int - pos as int,
                            ) =~= data.subrange(pos as int, newpos as int));
                        }
                        match cmd {
                            Command::Put(key, value) => {
                                let loc = Locator {
                                    generation: segments[si].generation,
                                    start: pos as u64,
                                    end: newpos as u64,
                                };
                                let ghost key_v = key@;
                                let ghost val_v = value@;
                                idx.insert(key, loc);
                                proof {
                                    m = m.insert(key_v, val_v);
                                    assert forall|k: Seq<u8>|
                                        #[trigger] idx@.contains_key(k) implies locator_ok(
                                        segments@.take(si as int + 1),
                                        idx@[k],
                                        k,
                                        m[k],
                                    ) by {
                                        if k == key_v {
                                            assert(seg_holds(
                                                segments@.take(si as int + 1),
                                                si as int,
                                                loc,
                                                key_v,
                                                val_v,
                                            ));
                                        } else {
                                            assert(idx0@.contains_key(k));
                                        }
                                    }
                                }
                            },
                            Command::Remove(key) => {
                                let ghost key_v = key@;
                                idx.remove(&key);
                                proof {
                                    m = m.remove(key_v);
                                    assert forall|k: Seq<u8>|
                                        #[trigger] idx@.contains_key(k) implies locator_ok(
                                        segments@.take(si as int + 1),
                                        idx@[k],
                                        k,
                                        m[k],
                                    ) by {
                                        assert(idx0@.contains_key(k));
                                    }
                                }
                            },
                        }
                        proof {
                            assert(m == apply_cmd(m0, c));
                            if parse_log(data.skip(newpos as int)) is Some {
                                lemma_replay_cmds_cons(
                                    m0,
                                    c,
                                    parse_log(data.skip(newpos as int))->Some_0,
                                );
                            }
                            assert(replay_from(m, data, newpos as int) == replay_from(
                                m_entry,
                                data,
                                0,
                            ));
                        }
                        pos = newpos;
                    },
                }
            }
            proof {
                lemma_open_segment_done(segments@, m, m_entry, si as int);
                let taken = seg_bytes(segments@).take(si as int + 1);
                assert(taken.drop_last() =~= seg_bytes(segments@).take(si as int));
                assert(taken.last() == segments@[si as int].data@);
            }
            uncompacted = uncompacted.saturating_add(data_len as u64);
            si = si + 1;
        }

        let cur_gen: u64 = if n == 0 {
            1
        } else {
            let last_gen: u64 = segments[n - 1].generation;
            if last_gen == u64::MAX {
                return Err(KvsError::GenerationsExhausted);
            }
            last_gen + 1
        };
        let mut segments = segments;
        let ghost old_segs = segments@;
        segments.push(Segment { generation: cur_gen, data: Vec::new() });
        let mut pending: Vec<FileOp> = Vec::new();
        pending.push(FileOp::Create { generation: cur_gen, bytes: Vec::new() });
        proof {
            assert(seg_bytes(old_segs).skip(n as int) =~= Seq::<Seq<u8>>::empty());
            assert(replay_all(seg_bytes(old_segs)) == Some(m));
            assert(seg_bytes(segments@) =~= seg_bytes(old_segs).push(Seq::<u8>::empty()));
            lemma_replay_segments_push(Map::empty(), seg_bytes(old_segs), Seq::<u8>::empty());
            assert(parse_log(Seq::<u8>::empty()) == Some(Seq::<CommandV>::empty()));
            assert(replay_all(seg_bytes(segments@)) == Some(m));
            assert(old_segs.take(n as int) =~= old_segs);
            assert forall|k: Seq<u8>| #[trigger] idx@.contains_key(k) implies locator_ok(
                segments@,
                idx@[k],
                k,
                m[k],
            ) by {
                let j = choose|j: int| seg_holds(old_segs, j, idx@[k], k, m[k]);
                assert(seg_holds(segments@, j, idx@[k], k, m[k]));
            }
        }
        let store = KvStore {
            segments,
            index: idx,
            current_generation: cur_gen,
            uncompacted,
            pending,
            model: Ghost(m),
        };
        proof {
            assert(store.wf());
        }
        Ok(store)
    }

    /// The position of the segment with this generation number.
    fn find_segment(&self, generation: u64) -> (j: usize)
        requires
            exists|j2: int|
                0 <= j2 < self.segments@.len() && (#[trigger] self.segments@[j2]).generation
                    == generation,
        ensures
            j < self.segments@.len(),
            self.segments@[j as int].generation == generation,
    {
        let n: usize = self.segments.len();
        let mut j: usize = 0;
        while j < n
            invariant
                j <= n,
                n == self.segments@.len(),
                exists|j2: int|
                    0 <= j2 < self.segments@.len() && (#[trigger] self.segments@[j2]).generation
                        == generation,
                forall|j2: int|
                    0 <= j2 < j ==> (#[trigger] self.segments@[j2]).generation != generation,
            decreases n - j,
        {
            if self.segments[j].generation == generation {
                return j;
            }
            j = j + 1;
        }
        proof {
            let j2 = choose|j2: int|
                0 <= j2 < self.segments@.len() && (#[trigger] self.segments@[j2]).generation
                    == generation;
            assert(false);
        }
        0
    }

    /// The value bound to `key`, or `None` when the key was never set or was
    /// removed; reads the exact byte range of the key's record back from its
    /// segment.  On a well-formed store this never fails.
    pub fn get(&self, key: &Vec<u8>) -> (r: Result<Option<Vec<u8>>, KvsError>)
        requires
            self.wf(),
        ensures
            match r {
                Ok(v) => match v {
                    Some(value) => self@.contains_key(key@) && value@ == self@[key@],
                    None => !self@.contains_key(key@),
                },
                Err(_) => false,
            },
    {
        let locopt = self.index.lookup(key);
        match locopt {
            None => Ok(None),
            Some(loc) => {
                let ghost value_v = self.model@[key@];
                let ghost c = CommandV::Put { key: key@, value: value_v };
                proof {
                    let j2 = choose|j2: int| seg_holds(self.segments@, j2, loc, key@, value_v);
                    assert(self.segments@[j2].generation == loc.generation);
                }
                let j = self.find_segment(loc.generation);
                let seg = &self.segments[j];
                proof {
                    let j2 = choose|j2: int| seg_holds(self.segments@, j2, loc, key@, value_v);
                    if j2 < j as int {
                        assert(self.segments@[j2].generation < self.segments@[j as int].generation);
                    }
                    if j2 > j as int {
                        assert(self.segments@[j as int].generation < self.segments@[j2].generation);
                    }
                    assert(j2 == j as int);
                    assert(seg.data@.subrange(loc.start as int, loc.end as int) == enc(c));
                }
                let seg_len: usize = seg.data.len();
                proof {
                    assert(loc.start <= loc.end <= seg_len);
                }
                let start: usize = loc.start as usize;
                let end: usize = loc.end as usize;
                proof {
                    assert(start == loc.start && end == loc.end);
                    assert(seg.data@.subrange(start as int, end as int) == enc(c));
                    assert(seg.data@.skip(start as int) =~= enc(c) + seg.data@.skip(end as int));
                    lemma_parse_enc(c, seg.data@.skip(end as int));
                }
                let decoded = decode_cmd(&seg.data, start);
                match decoded {
                    Ok((cmd, _next)) => match cmd {
                        Command::Put(_k, value) => Ok(Some(value)),
                        Command::Remove(_k) => {
                            proof {
                                assert(false);
                            }
                            Err(KvsError::Corrupt)
                        },
                    },
                    Err(_) => {
                        proof {
                            assert(false);
                        }
                        Err(KvsError::Corrupt)
                    },
                }
            },
        }
    }

    /// Appends one encoded record to the current segment, emits the matching
    /// `Append` instruction, and returns the byte range the record occupies.
    fn append_record(&mut self, rec: Vec<u8>, Ghost(c): Ghost<CommandV>) -> (r: (u64, u64))
        requires
            old(self).wf(),
            rec@ == enc(c),
            cmd_fits(c),
        ensures
            final(self).index == old(self).index,
            final(self).model == old(self).model,
            final(self).uncompacted == old(self).uncompacted,
            final(self).current_generation == old(self).current_generation,
            final(self).segments@.len() == old(self).segments@.len(),
            gens_ascending(final(self).segments@),
            final(self).segments@.last().generation == final(self).current_generation,
            forall|j: int|
                0 <= j < old(self).segments@.len() - 1 ==> final(self).segments@[j] == old(
                    self,
                ).segments@[j],
            final(self).segments@.last().data@ == old(self).segments@.last().data@ + enc(c),
            final(self).segments@.last().generation == old(self).segments@.last().generation,
            replay_all(seg_bytes(final(self).segments@)) == Some(
                apply_cmd(old(self).model@, c),
            ),
            forall|loc: Locator, k: Seq<u8>, v: Seq<u8>|
                #[trigger] locator_ok(old(self).segments@, loc, k, v) ==> locator_ok(
                    final(self).segments@,
                    loc,
                    k,
                    v,
                ),
            r.0 == old(self).segments@.last().data@.len(),
            r.1 == r.0 + enc(c).len(),
    {
        let ghost segs0 = self.segments@;
        let mut seg = self.segments.pop().unwrap();
        let before: usize = seg.data.len();
        push_bytes(&mut seg.data, &rec);
        let after: usize = seg.data.len();
        let generation: u64 = seg.generation;
        self.segments.push(seg);
        self.pending.push(FileOp::Append { generation, bytes: rec });
        proof {
            assert(self.segments@ =~= segs0.update(segs0.len() - 1, self.segments@.last()));
            assert forall|i: int, j: int|
                0 <= i < j < self.segments@.len() implies self.segments@[i].generation
                < self.segments@[j].generation by {
                assert(segs0[i].generation < segs0[j].generation);
            }
            lemma_replay_extend_last(segs0, self.segments@, c, old(self).model@);
            assert forall|loc: Locator, k: Seq<u8>, v: Seq<u8>|
                #[trigger] locator_ok(segs0, loc, k, v) implies locator_ok(
                self.segments@,
                loc,
                k,
                v,
            ) by {
                let j = choose|j: int| seg_holds(segs0, j, loc, k, v);
                if j < segs0.len() - 1 {
                    assert(seg_holds(self.segments@, j, loc, k, v));
                } else {
                    assert(self.segments@.last().data@.subrange(
                        loc.start as int,
                        loc.end as int,
                    ) =~= segs0.last().data@.subrange(loc.start as int, loc.end as int));
                    assert(seg_holds(self.segments@, j, loc, k, v));
                }
            }
        }
        (before as u64, after as u64)
    }

    /// Binds `key` to `value`: appends a `Put` record to the current segment,
    /// flushes it (through the emitted instruction), and points the index at
    /// the new record.  Runs compaction before returning when the stale-byte
    /// counter crosses the threshold; fails only when compaction is due but
    /// the generation numbers are used up, leaving the store unchanged.
    pub fn set(&mut self, key: Vec<u8>, value: Vec<u8>) -> (r: Result<(), KvsError>)
        requires
            old(self).wf(),
        ensures
            final(self).wf(),
            match r {
                Ok(_) => final(self)@ == old(self)@.insert(key@, value@),
                Err(e) => {
                    &&& e == KvsError::GenerationsExhausted
                    &&& *final(self) == *old(self)
                    &&& old(self).cur_gen() > u64::MAX - 2
                    &&& old(self).stale_bytes() + enc(
                        (CommandV::Put { key: key@, value: value@ }),
                    ).len() > COMPACTION_THRESHOLD
                },
            },
            old(self).cur_gen() <= u64::MAX - 2 || old(self).stale_bytes() + enc(
                (CommandV::Put { key: key@, value: value@ }),
            ).len() <= COMPACTION_THRESHOLD ==> r is Ok,
    {
        let ghost key_v = key@;
        let ghost val_v = value@;
        let ghost c = CommandV::Put { key: key_v, value: val_v };
        let klen: usize = key.len();
        let vlen: usize = value.len();
        proof {
            assert(pow256(8) == 0x10000000000000000) by {
                reveal_with_fuel(pow256, 9);
            }
        }
        let mut rec: Vec<u8> = Vec::new();
        encode_put(&key, &value, &mut rec);
        let rec_len: u64 = rec.len() as u64;
        let new_unc: u64 = self.uncompacted.saturating_add(rec_len);
        if new_unc > COMPACTION_THRESHOLD && self.current_generation > u64::MAX - 2 {
            return Err(KvsError::GenerationsExhausted);
        }
        let (before, after) = self.append_record(rec, Ghost(c));
        let loc = Locator { generation: self.current_generation, start: before, end: after };
        self.index.insert(key, loc);
        self.model = Ghost(self.model@.insert(key_v, val_v));
        self.uncompacted = new_unc;
        proof {
            let segs = self.segments@;
            assert(segs.last().data@.subrange(before as int, after as int) =~= enc(c));
            assert(seg_holds(segs, segs.len() - 1, loc, key_v, val_v));
            assert forall|k: Seq<u8>| #[trigger] self.index@.contains_key(k) implies locator_ok(
                self.segments@,
                self.index@[k],
                k,
                self.model@[k],
            ) by {
                if k != key_v {
                    assert(old(self).index@.contains_key(k));
                }
            }
        }
        if new_unc > COMPACTION_THRESHOLD {
            self.compact();
        }
        Ok(())
    }

    /// Deletes `key`: appends a `Remove` record (a tombstone) and drops the
    /// key from the index.  Removing an absent key is an error, not a no-op,
    /// and appends nothing.
    pub fn remove(&mut self, key: Vec<u8>) -> (r: Result<(), KvsError>)
        requires
            old(self).wf(),
        ensures
            final(self).wf(),
            match r {
                Ok(_) => {
                    &&& old(self)@.contains_key(key@)
                    &&& final(self)@ == old(self)@.remove(key@)
                },
                Err(e) => {
                    &&& e == KvsError::KeyNotFound
                    &&& !old(self)@.contains_key(key@)
                    &&& *final(self) == *old(self)
                },
            },
    {
        let ghost key_v = key@;
        let ghost c = CommandV::Remove { key: key_v };
        let present = match self.index.lookup(&key) {
            Some(_) => true,
            None => false,
        };
        if !present {
            return Err(KvsError::KeyNotFound);
        }
        let klen: usize = key.len();
        proof {
            assert(pow256(8) == 0x10000000000000000) by {
                reveal_with_fuel(pow256, 9);
            }
        }
        let mut rec: Vec<u8> = Vec::new();
        encode_remove(&key, &mut rec);
        let _range = self.append_record(rec, Ghost(c));
        self.index.remove(&key);
        self.model = Ghost(self.model@.remove(key_v));
        proof {
            assert forall|k: Seq<u8>| #[trigger] self.index@.contains_key(k) implies locator_ok(
                self.segments@,
                self.index@[k],
                k,
                self.model@[k],
            ) by {
                assert(old(self).index@.contains_key(k));
            }
        }
        Ok(())
    }

    /// Compaction: copies every live record, byte for byte, into one fresh
    /// segment (one generation up), retargets the whole index at it, resets
    /// the stale-byte counter, deletes every old segment file, and starts a
    /// new empty current segment two generations up.  The externally
    /// observable mapping does not change.
    fn compact(&mut self)
        requires
            old(self).wf(),
            old(self).cur_gen() <= u64::MAX - 2,
        ensures
            final(self).wf(),
            final(self)@ == old(self)@,
            final(self).stale_bytes() == 0,
            final(self).cur_gen() == old(self).cur_gen() + 2,
            final(self).generations() =~= seq![
                (old(self).cur_gen() + 1) as u64,
                (old(self).cur_gen() + 2) as u64,
            ],
    {
        let compaction_gen: u64 = self.current_generation + 1;
        let mut out: Vec<u8> = Vec::new();
        let mut new_index = Index::new();
        let ghost mut cmds: Seq<CommandV> = Seq::empty();
        let ghost mut pm: Map<Seq<u8>, Seq<u8>> = Map::empty();
        let n: usize = self.index.len();
        let mut i: usize = 0;
        proof {
            assert(parse_log(out@) == Some(cmds));
        }
        while i < n
            invariant
                i <= n,
                self == old(self),
                self.wf(),
                n == self.index.num_entries(),
                compaction_gen == self.current_generation + 1,
                self.current_generation <= u64::MAX - 2,
                new_index.wf(),
                pm == replay_cmds(Map::empty(), cmds),
                parse_log(out@) == Some(cmds),
                forall|k: Seq<u8>|
                    #[trigger] pm.contains_key(k) <==> exists|e: int|
                        0 <= e < i && (#[trigger] self.index.entry_key(e)) == k,
                forall|k: Seq<u8>|
                    #[trigger] pm.contains_key(k) ==> self.model@.contains_key(k) && pm[k]
                        == self.model@[k],
                forall|k: Seq<u8>|
                    #![trigger new_index@.contains_key(k)]
                    #![trigger pm.contains_key(k)]
                    new_index@.contains_key(k) <==> pm.contains_key(k),
                forall|k: Seq<u8>|
                    #[trigger] new_index@.contains_key(k) ==> compaction_entry_ok(
                        new_index@[k],
                        compaction_gen,
                        out@,
                        k,
                        pm[k],
                    ),
            decreases n - i,
        {
            proof {
                self.index.lemma_entry_in_view(i as int);
            }
            let ghost k_v = self.index.entry_key(i as int);
            let ghost v_v = self.model@[k_v];
            let ghost c = CommandV::Put { key: k_v, value: v_v };
            let key_ref = self.index.key_at(i);
            let loc = self.index.loc_at(i);
            proof {
                let j2 = choose|j2: int| seg_holds(self.segments@, j2, loc, k_v, v_v);
                assert(self.segments@[j2].generation == loc.generation);
            }
            let j = self.find_segment(loc.generation);
            proof {
                let j2 = choose|j2: int| seg_holds(self.segments@, j2, loc, k_v, v_v);
                if j2 < j as int {
                    assert(self.segments@[j2].generation < self.segments@[j as int].generation);
                }
                if j2 > j as int {
                    assert(self.segments@[j as int].generation < self.segments@[j2].generation);
                }
                assert(j2 == j as int);
            }
            let seg = &self.segments[j];
            let seg_len: usize = seg.data.len();
            proof {
                assert(loc.start <= loc.end <= seg_len);
            }
            let start: usize = loc.start as usize;
            let end: usize = loc.end as usize;
            proof {
                assert(start == loc.start && end == loc.end);
                assert(seg.data@.subrange(start as int, end as int) == enc(c));
            }
            let piece = copy_range(&seg.data, start, end);
            let before: usize = out.len();
            let ghost out0 = out@;
            let ghost cmds0 = cmds;
            let ghost new_index0 = new_index;
            push_bytes(&mut out, &piece);
            let after: usize = out.len();
            let key_copy = copy_range(key_ref, 0, key_ref.len());
            let new_loc = Locator {
                generation: compaction_gen,
                start: before as u64,
                end: after as u64,
            };
            new_index.insert(key_copy, new_loc);
            proof {
                assert(key_copy@ =~= k_v);
                assert(piece@ == enc(c));
                cmds = cmds0.push(c);
                pm = pm.insert(k_v, v_v);
                lemma_parse_log_snoc(out0, c);
                lemma_replay_cmds_push(Map::empty(), cmds0, c);
                assert(out@.subrange(before as int, after as int) =~= enc(c));
                assert(compaction_entry_ok(new_loc, compaction_gen, out@, k_v, v_v));
                assert forall|k: Seq<u8>| #[trigger] new_index@.contains_key(
                    k,
                ) implies compaction_entry_ok(new_index@[k], compaction_gen, out@, k, pm[k]) by {
                    if k != k_v {
                        assert(new_index0@.contains_key(k));
                        let loc0 = new_index0@[k];
                        assert(out@.subrange(loc0.start as int, loc0.end as int) =~= out0.subrange(
                            loc0.start as int,
                            loc0.end as int,
                        ));
                    }
                }
                assert forall|k: Seq<u8>| #[trigger] pm.contains_key(k) implies exists|e: int|
                    0 <= e < i + 1 && (#[trigger] self.index.entry_key(e)) == k by {
                    if k == k_v {
                        assert(0 <= i < i + 1 && self.index.entry_key(i as int) == k);
                    } else {
                        let e = choose|e: int|
                            0 <= e < i && (#[trigger] self.index.entry_key(e)) == k;
                        assert(0 <= e < i + 1 && self.index.entry_key(e) == k);
                    }
                }
                assert forall|k: Seq<u8>|
                    (exists|e: int|
                        0 <= e < i + 1 && (#[trigger] self.index.entry_key(e))
                            == k) implies #[trigger] pm.contains_key(k) by {
                    let e = choose|e: int|
                        0 <= e < i + 1 && (#[trigger] self.index.entry_key(e)) == k;
                    if e < i {
                        assert(pm.contains_key(k));
                    } else {
                        assert(k == k_v);
                    }
                }
            }
            i = i + 1;
        }
        proof {
            assert forall|k: Seq<u8>| #[trigger] self.model@.contains_key(k) implies pm.contains_key(
                k,
            ) by {
                assert(self.index@.contains_key(k));
                self.index.lemma_view_has_entry(k);
            }
            assert(pm =~= self.model@);
            assert(replay_cmds(Map::empty(), cmds) == self.model@);
        }
        let out_copy = copy_range(&out, 0, out.len());
        self.pending.push(FileOp::Create { generation: compaction_gen, bytes: out_copy });
        let segs_n: usize = self.segments.len();
        let mut dels: Vec<FileOp> = Vec::new();
        let mut d: usize = 0;
        while d < segs_n
            invariant
                d <= segs_n,
                segs_n == self.segments@.len(),
            decreases segs_n - d,
        {
            dels.push(FileOp::Delete { generation: self.segments[d].generation });
            d = d + 1;
        }
        self.pending.append(&mut dels);
        let new_gen: u64 = self.current_generation + 2;
        self.pending.push(FileOp::Create { generation: new_gen, bytes: Vec::new() });
        let ghost out_v = out@;
        let mut new_segments: Vec<Segment> = Vec::new();
        new_segments.push(Segment { generation: compaction_gen, data: out });
        new_segments.push(Segment { generation: new_gen, data: Vec::new() });
        self.segments = new_segments;
        self.index = new_index;
        self.current_generation = new_gen;
        self.uncompacted = 0;
        proof {
            let segs = self.segments@;
            let logs = seg_bytes(segs);
            assert(segs.len() == 2);
            assert(segs[0].data@ == out_v);
            assert(logs[0] == segs[0].data@);
            assert(logs[1] == segs[1].data@);
            assert(segs[1].data@ =~= Seq::<u8>::empty());
            assert(replay_all(logs) == replay_segments(
                replay_cmds(Map::empty(), cmds),
                logs.skip(1),
            ));
            assert(logs.skip(1).len() == 1);
            assert(logs.skip(1)[0] =~= Seq::<u8>::empty());
            assert(parse_log(logs.skip(1)[0]) == Some(Seq::<CommandV>::empty()));
            assert(replay_segments(self.model@, logs.skip(1)) == replay_segments(
                replay_cmds(self.model@, Seq::<CommandV>::empty()),
                logs.skip(1).skip(1),
            ));
            assert(logs.skip(1).skip(1) =~= Seq::<Seq<u8>>::empty());
            assert(replay_cmds(self.model@, Seq::<CommandV>::empty()) == self.model@);
            assert(replay_all(logs) == Some(self.model@));
            assert forall|k: Seq<u8>| #[trigger] self.index@.contains_key(k) implies locator_ok(
                self.segments@,
                self.index@[k],
                k,
                self.model@[k],
            ) by {
                assert(compaction_entry_ok(
                    self.index@[k],
                    compaction_gen,
                    segs[0].data@,
                    k,
                    pm[k],
                ));
                assert(seg_holds(self.segments@, 0, self.index@[k], k, self.model@[k]));
            }
        }
    }

    /// Gives the store up, handing out its segment images: exactly what the
    /// backing directory holds once every emitted instruction has been
    /// applied, and exactly what a later `open` replays.
    pub fn into_segments(self) -> (r: Vec<Segment>)
        requires
            self.wf(),
        ensures
            gens_ascending(r@),
            replay_all(seg_bytes(r@)) == Some(self@),
            r@.len() >= 1,
            r@.last().generation == self.cur_gen(),
    {
        self.segments
    }

    /// Hands out, and clears, the file instructions the embedding must apply
    /// to the backing directory, in order.
    pub fn take_ops(&mut self) -> (r: Vec<FileOp>)
        requires
            old(self).wf(),
        ensures
            final(self).wf(),
            final(self)@ == old(self)@,
            final(self).cur_gen() == old(self).cur_gen(),
            final(self).seg_views() == old(self).seg_views(),
            final(self).pending_ops() == Seq::<FileOp>::empty(),
            r@ == old(self).pending_ops(),
    {
        let mut r: Vec<FileOp> = Vec::new();
        core::mem::swap(&mut r, &mut self.pending);
        r
    }
}

/// Round-trip law: after a key is set, the mapping holds exactly that value
/// for it, so a `get` (whose result is pinned to the mapping) returns it.
pub proof fn lemma_set_then_get(m: Map<Seq<u8>, Seq<u8>>, key: Seq<u8>, value: Seq<u8>)
    ensures
        m.insert(key, value).contains_key(key),
        m.insert(key, value)[key] == value,
{
}

/// A set or remove of one key leaves every other key's binding untouched:
/// with no intervening operation on `key` itself, its value survives any
/// number of operations on other keys.
pub proof fn lemma_other_key_untouched(
    m: Map<Seq<u8>, Seq<u8>>,
    key: Seq<u8>,
    other: Seq<u8>,
    value: Seq<u8>,
)
    requires
        key != other,
    ensures
        m.insert(other, value).contains_key(key) == m.contains_key(key),
        m.contains_key(key) ==> m.insert(other, value)[key] == m[key],
        m.remove(other).contains_key(key) == m.contains_key(key),
        m.contains_key(key) ==> m.remove(other)[key] == m[key],
{
}

/// Tombstone law: after a remove, the key is absent from the mapping, so a
/// `get` reports "not found" and a second `remove` fails with `KeyNotFound`.
pub proof fn lemma_tombstone(m: Map<Seq<u8>, Seq<u8>>, key: Seq<u8>)
    ensures
        !m.remove(key).contains_key(key),
{
}

/// Overwrite law: two sets of the same key leave the second value.
pub proof fn lemma_overwrite(
    m: Map<Seq<u8>, Seq<u8>>,
    key: Seq<u8>,
    v1: Seq<u8>,
    v2: Seq<u8>,
)
    ensures
        m.insert(key, v1).insert(key, v2).contains_key(key),
        m.insert(key, v1).insert(key, v2)[key] == v2,
{
}

/// Pairwise-adjacent ascent gives full ascent.
proof fn lemma_adjacent_ascending(segs: Seq<Segment>)
    requires
        forall|j: int| 0 < j < segs.len() ==> #[trigger] segs[j].generation > segs[j - 1].generation,
    ensures
        gens_ascending(segs),
{
    assert forall|i: int, j: int|
        0 <= i < j < segs.len() implies segs[i].generation < segs[j].generation by {
        lemma_gen_lt(segs, i, j);
    }
}

proof fn lemma_gen_lt(segs: Seq<Segment>, i: int, j: int)
    requires
        forall|j2: int| 0 < j2 < segs.len() ==> #[trigger] segs[j2].generation > segs[j2 - 1].generation,
        0 <= i < j < segs.len(),
    ensures
        segs[i].generation < segs[j].generation,
    decreases j - i,
{
    if i + 1 < j {
        lemma_gen_lt(segs, i, j - 1);
    }
}

/// A decode failure mid-segment means the whole log fails to replay.
proof fn lemma_open_abort(
    segs: Seq<Segment>,
    m: Map<Seq<u8>, Seq<u8>>,
    m_entry: Map<Seq<u8>, Seq<u8>>,
    si: int,
    pos: int,
)
    requires
        0 <= si < segs.len(),
        0 <= pos <= segs[si].data@.len(),
        parse_rec(segs[si].data@.skip(pos)) is None,
        pos < segs[si].data@.len(),
        replay_from(m, segs[si].data@, pos) == replay_from(m_entry, segs[si].data@, 0),
        replay_all(seg_bytes(segs)) == replay_segments(m_entry, seg_bytes(segs).skip(si)),
    ensures
        replay_all(seg_bytes(segs)) is None,
{
    let data = segs[si].data@;
    assert(data.skip(0) =~= data);
    assert(data.skip(pos).len() > 0);
    assert(parse_log(data.skip(pos)) is None);
    assert(parse_log(data) is None);
    assert(seg_bytes(segs).skip(si)[0] == data);
    assert(replay_segments(m_entry, seg_bytes(segs).skip(si)) is None);
}

/// A fully decoded segment advances the outer replay invariant by one
/// segment.
proof fn lemma_open_segment_done(
    segs: Seq<Segment>,
    m: Map<Seq<u8>, Seq<u8>>,
    m_entry: Map<Seq<u8>, Seq<u8>>,
    si: int,
)
    requires
        0 <= si < segs.len(),
        replay_from(m, segs[si].data@, segs[si].data@.len() as int) == replay_from(
            m_entry,
            segs[si].data@,
            0,
        ),
        replay_all(seg_bytes(segs)) == replay_segments(m_entry, seg_bytes(segs).skip(si)),
    ensures
        replay_all(seg_bytes(segs)) == replay_segments(m, seg_bytes(segs).skip(si + 1)),
{
    let data = segs[si].data@;
    assert(data.skip(0) =~= data);
    assert(data.skip(data.len() as int) =~= Seq::<u8>::empty());
    assert(parse_log(Seq::<u8>::empty()) == Some(Seq::<CommandV>::empty()));
    assert(replay_cmds(m, Seq::<CommandV>::empty()) == m);
    assert(replay_from(m, data, data.len() as int) == Some(m));
    assert(seg_bytes(segs).skip(si)[0] == data);
    assert(seg_bytes(segs).skip(si).skip(1) =~= seg_bytes(segs).skip(si + 1));
    let cs = parse_log(data)->Some_0;
    assert(replay_cmds(m_entry, cs) == m);
    assert(replay_segments(m_entry, seg_bytes(segs).skip(si)) == replay_segments(
        replay_cmds(m_entry, cs),
        seg_bytes(segs).skip(si).skip(1),
    ));
}

} // verus!
