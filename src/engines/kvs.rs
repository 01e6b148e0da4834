use crate::engines::index::{
    ascending, index_all, index_entries, index_range, key_le, index_get, index_insert, index_new, index_remove,
    key_lt, lemma_key_lt_irreflexive, Locator,
};
use crate::engines::record::{
    decode_record, encode_record, record_bytes, record_view, DecodeFailure, Record, RecordView,
};
use crate::error::KvsError;
use crossbeam_skiplist::SkipMap;
use vstd::prelude::*;
use vstd::slice::{slice_subrange, slice_to_vec};

verus! {

/// Dead bytes beyond which a write compacts the log.
pub const COMPACTION_THRESHOLD: u64 = 1024 * 1024 * 1024;

/// An append-only segment of the log: its generation and its records' bytes.
#[derive(Clone, Debug)]
pub struct Segment {
    pub gen: u64,
    pub data: Vec<u8>,
}

/// The live map after a record.
pub open spec fn apply(m: Map<Seq<char>, Seq<char>>, r: RecordView) -> Map<Seq<char>, Seq<char>> {
    match r {
        Ok((k, v)) => m.insert(k, v),
        Err(k) => m.remove(k),
    }
}

/// The live map after replaying records in order.
pub open spec fn replay(rs: Seq<RecordView>) -> Map<Seq<char>, Seq<char>>
    decreases rs.len(),
{
    if rs.len() == 0 {
        Map::empty()
    } else {
        apply(replay(rs.drop_last()), rs.last())
    }
}

/// The bytes of records written one after another.
pub open spec fn encode_all(rs: Seq<RecordView>) -> Seq<u8>
    decreases rs.len(),
{
    if rs.len() == 0 {
        Seq::empty()
    } else {
        encode_all(rs.drop_last()) + record_bytes(rs.last())
    }
}

/// The records of all segments, oldest segment first.
pub open spec fn flatten(log: Seq<Seq<RecordView>>) -> Seq<RecordView>
    decreases log.len(),
{
    if log.len() == 0 {
        Seq::empty()
    } else {
        flatten(log.drop_last()) + log.last()
    }
}

/// Every record has a non-empty encoding.
pub open spec fn nonempty_records(rs: Seq<RecordView>) -> bool {
    forall|j: int| 0 <= j < rs.len() ==> record_bytes(#[trigger] rs[j]).len() > 0
}

/// `data` is exactly the records `rs`, one after another.
pub open spec fn exact(data: Seq<u8>, rs: Seq<RecordView>) -> bool {
    data == encode_all(rs) && nonempty_records(rs)
}

/// `t` is a non-empty, strict prefix of the bytes of record `x`: the record
/// was cut short by a crash.
pub open spec fn torn_record(t: Seq<u8>, x: RecordView) -> bool {
    0 < t.len() < record_bytes(x).len() && record_bytes(x).take(t.len() as int) == t
}

/// `data` is the whole records `rs`, followed by nothing or by a torn record `t`.
pub open spec fn whole_then_torn(data: Seq<u8>, rs: Seq<RecordView>, t: Seq<u8>) -> bool {
    &&& data == encode_all(rs) + t
    &&& nonempty_records(rs)
    &&& t.len() == 0 || exists|x: RecordView| #[trigger] torn_record(t, x)
}

/// Segments in increasing generation order, each the records of `log` at its
/// index followed by the torn record of `tails` at its index, if any.
pub open spec fn readable_segments(
    segs: Seq<Segment>,
    log: Seq<Seq<RecordView>>,
    tails: Seq<Seq<u8>>,
) -> bool {
    &&& segs.len() > 0
    &&& gens_increasing(segs)
    &&& log.len() == segs.len()
    &&& tails.len() == segs.len()
    &&& forall|i: int|
        0 <= i < segs.len() ==> whole_then_torn((#[trigger] segs[i]).data@, log[i], tails[i])
}

/// Generations strictly increase along the segments.
pub open spec fn gens_increasing(segs: Seq<Segment>) -> bool {
    forall|i: int, j: int| 0 <= i < j < segs.len() ==> (#[trigger] segs[i]).gen < (
    #[trigger] segs[j]).gen
}

/// The keys of `m` from `start` to `end`, both included, each once, in
/// ascending order.
pub open spec fn keys_in_range(
    ks: Seq<Seq<char>>,
    m: Map<Seq<char>, Seq<char>>,
    start: Seq<char>,
    end: Seq<char>,
) -> bool {
    &&& forall|i: int, j: int| 0 <= i < j < ks.len() ==> key_lt(#[trigger] ks[i], #[trigger] ks[j])
    &&& forall|i: int|
        0 <= i < ks.len() ==> m.contains_key(#[trigger] ks[i]) && key_le(start, ks[i]) && key_le(
            ks[i],
            end,
        )
    &&& forall|k: Seq<char>|
        #[trigger] m.contains_key(k) && key_le(start, k) && key_le(k, end) ==> exists|i: int|
            0 <= i < ks.len() && ks[i] == k
}

/// The characters of each string.
pub open spec fn views(vs: Seq<String>) -> Seq<Seq<char>> {
    vs.map_values(|v: String| v@)
}

/// The values of `m` at the keys `ks`, in order.
pub open spec fn values_at(ks: Seq<Seq<char>>, m: Map<Seq<char>, Seq<char>>) -> Seq<Seq<char>> {
    ks.map_values(|k: Seq<char>| m[k])
}

/// `a + b`, or the largest `u64` when the sum does not fit.
pub open spec fn sat_add(a: u64, b: nat) -> u64 {
    if a + b > u64::MAX {
        u64::MAX
    } else {
        (a + b) as u64
    }
}

/// The length of the record that sets `k` to its live value, or 0 when `k`
/// is not live.
pub open spec fn live_len(m: Map<Seq<char>, Seq<char>>, k: Seq<char>) -> nat {
    if m.contains_key(k) {
        record_bytes(Ok((k, m[k]))).len()
    } else {
        0
    }
}

/// The count of dead bytes after writing record `r` over the live map `m`:
/// a write makes the key's earlier record dead, and a removal makes its own
/// record dead too.
pub open spec fn dead_after(d: u64, m: Map<Seq<char>, Seq<char>>, r: RecordView) -> u64 {
    match r {
        Ok((k, _)) => sat_add(d, live_len(m, k)),
        Err(k) => sat_add(sat_add(d, live_len(m, k)), record_bytes(r).len()),
    }
}

/// The count of dead bytes after replaying records from an empty store.
pub open spec fn replay_dead(rs: Seq<RecordView>) -> u64
    decreases rs.len(),
{
    if rs.len() == 0 {
        0
    } else {
        dead_after(replay_dead(rs.drop_last()), replay(rs.drop_last()), rs.last())
    }
}

/// The index after appending record `r` at `(g, pos, n)`.
pub open spec fn index_after(
    idx: Map<Seq<char>, Locator>,
    r: RecordView,
    g: u64,
    pos: nat,
    n: nat,
) -> Map<Seq<char>, Locator> {
    match r {
        Ok((k, _)) => idx.insert(k, (g, pos as usize, n as usize)),
        Err(k) => idx.remove(k),
    }
}

/// The keys of index entries, in order.
pub open spec fn entry_keys(es: Seq<(String, Locator)>) -> Seq<Seq<char>> {
    es.map_values(|e: (String, Locator)| e.0@)
}

/// One record setting each key of `ks` to its value in `m`, in the order of `ks`.
pub open spec fn set_records(ks: Seq<Seq<char>>, m: Map<Seq<char>, Seq<char>>) -> Seq<RecordView> {
    ks.map_values(|k: Seq<char>| Ok::<(Seq<char>, Seq<char>), Seq<char>>((k, m[k])))
}

/// `ks` holds every key of `m` once, in ascending order.
pub open spec fn all_keys_ascending(ks: Seq<Seq<char>>, m: Map<Seq<char>, Seq<char>>) -> bool {
    &&& forall|i: int, j: int| 0 <= i < j < ks.len() ==> key_lt(#[trigger] ks[i], #[trigger] ks[j])
    &&& forall|i: int| 0 <= i < ks.len() ==> m.contains_key(#[trigger] ks[i])
    &&& forall|k: Seq<char>| #[trigger] m.contains_key(k) ==> exists|i: int| 0 <= i < ks.len() && ks[i] == k
}

/// Generations and bytes of segments.
pub open spec fn segs_view(segs: Seq<Segment>) -> Seq<(u64, Seq<u8>)> {
    segs.map_values(|s: Segment| (s.gen, s.data@))
}

/// Whether a segment of generation `g` is present.
pub open spec fn has_gen(sv: Seq<(u64, Seq<u8>)>, g: u64) -> bool
    decreases sv.len(),
{
    if sv.len() == 0 {
        false
    } else {
        sv.last().0 == g || has_gen(sv.drop_last(), g)
    }
}

/// The bytes of the newest segment of generation `g`.
pub open spec fn data_of(sv: Seq<(u64, Seq<u8>)>, g: u64) -> Seq<u8>
    decreases sv.len(),
{
    if sv.len() == 0 {
        Seq::empty()
    } else if sv.last().0 == g {
        sv.last().1
    } else {
        data_of(sv.drop_last(), g)
    }
}

/// The locator points at a record that sets `k` to `v`.
pub open spec fn locates(sv: Seq<(u64, Seq<u8>)>, l: Locator, k: Seq<char>, v: Seq<char>) -> bool {
    &&& has_gen(sv, l.0)
    &&& l.2 > 0
    &&& l.1 + l.2 <= data_of(sv, l.0).len()
    &&& data_of(sv, l.0).subrange(l.1 as int, l.1 + l.2) == record_bytes(Ok((k, v)))
}

/// A log-structured store. Its segments hold every record written since the
/// last compaction; its index maps each live key to the record that set it.
pub struct KvStore {
    index: SkipMap<String, Locator>,
    segments: Vec<Segment>,
    current_gen: u64,
    uncompacted: u64,
    threshold: u64,
    safe_point: u64,
    log: Ghost<Seq<Seq<RecordView>>>,
}

proof fn lemma_flatten_push_last(log: Seq<Seq<RecordView>>, r: RecordView)
    requires
        log.len() > 0,
    ensures
        flatten(log.update(log.len() - 1, log.last().push(r))) == flatten(log).push(r),
{
    let log2 = log.update(log.len() - 1, log.last().push(r));
    assert(log2.drop_last() =~= log.drop_last());
    assert(flatten(log.drop_last()) + log.last().push(r) =~= (flatten(log.drop_last())
        + log.last()).push(r));
}

proof fn lemma_encode_all_push(rs: Seq<RecordView>, r: RecordView)
    ensures
        encode_all(rs.push(r)) == encode_all(rs) + record_bytes(r),
{
    assert(rs.push(r).drop_last() =~= rs);
}

proof fn lemma_replay_push(rs: Seq<RecordView>, r: RecordView)
    ensures
        replay(rs.push(r)) == apply(replay(rs), r),
{
    assert(rs.push(r).drop_last() =~= rs);
}

/// Extending the bytes of the last segment keeps every other segment's bytes
/// and keeps the last one's as a prefix.
proof fn lemma_data_of_extend_last(sv: Seq<(u64, Seq<u8>)>, extra: Seq<u8>, g: u64)
    requires
        sv.len() > 0,
    ensures
        has_gen(sv.update(sv.len() - 1, (sv.last().0, sv.last().1 + extra)), g) == has_gen(sv, g),
        data_of(sv.update(sv.len() - 1, (sv.last().0, sv.last().1 + extra)), g) == if sv.last().0
            == g {
            data_of(sv, g) + extra
        } else {
            data_of(sv, g)
        },
{
    let sv2 = sv.update(sv.len() - 1, (sv.last().0, sv.last().1 + extra));
    assert(sv2.drop_last() =~= sv.drop_last());
}

proof fn lemma_subrange_of_prefix(a: Seq<u8>, b: Seq<u8>, i: int, j: int)
    requires
        0 <= i <= j <= a.len(),
    ensures
        (a + b).subrange(i, j) == a.subrange(i, j),
{
    assert((a + b).subrange(i, j) =~= a.subrange(i, j));
}

proof fn lemma_encode_all_concat(a: Seq<RecordView>, b: Seq<RecordView>)
    ensures
        encode_all(a + b) == encode_all(a) + encode_all(b),
    decreases b.len(),
{
    if b.len() == 0 {
        assert(a + b =~= a);
        assert(encode_all(a) + encode_all(b) =~= encode_all(a));
    } else {
        assert((a + b).drop_last() =~= a + b.drop_last());
        lemma_encode_all_concat(a, b.drop_last());
        assert(encode_all(a) + encode_all(b.drop_last()) + record_bytes(b.last()) =~= encode_all(
            a,
        ) + (encode_all(b.drop_last()) + record_bytes(b.last())));
    }
}

/// In an exact encoding, the bytes after the first `m` records begin with
/// record `m`.
proof fn lemma_exact_next(rs: Seq<RecordView>, m: int)
    requires
        0 <= m < rs.len(),
    ensures
        encode_all(rs) == encode_all(rs.take(m)) + (record_bytes(rs[m]) + encode_all(
            rs.skip(m + 1),
        )),
        encode_all(rs.take(m + 1)) == encode_all(rs.take(m)) + record_bytes(rs[m]),
{
    assert(rs =~= rs.take(m) + (seq![rs[m]] + rs.skip(m + 1)));
    lemma_encode_all_concat(rs.take(m), seq![rs[m]] + rs.skip(m + 1));
    lemma_encode_all_concat(seq![rs[m]], rs.skip(m + 1));
    assert(seq![rs[m]].drop_last() =~= Seq::<RecordView>::empty());
    assert(seq![rs[m]].last() == rs[m]);
    assert(encode_all(Seq::<RecordView>::empty()) =~= Seq::<u8>::empty());
    assert(encode_all(seq![rs[m]]) =~= record_bytes(rs[m]));
    assert(rs.take(m + 1) =~= rs.take(m).push(rs[m]));
    lemma_encode_all_push(rs.take(m), rs[m]);
}

/// An exact encoding of at least one more record is longer.
proof fn lemma_exact_longer(rs: Seq<RecordView>, m: int)
    requires
        0 <= m < rs.len(),
        nonempty_records(rs),
    ensures
        encode_all(rs.take(m)).len() < encode_all(rs).len(),
{
    lemma_exact_next(rs, m);
    assert(record_bytes(rs[m]).len() > 0);
}

proof fn lemma_has_gen_below(sv: Seq<(u64, Seq<u8>)>, g: u64, bound: u64)
    requires
        has_gen(sv, g),
        forall|j: int| 0 <= j < sv.len() ==> (#[trigger] sv[j]).0 < bound,
    ensures
        g < bound,
    decreases sv.len(),
{
    if sv.last().0 != g {
        lemma_has_gen_below(sv.drop_last(), g, bound);
    }
}

proof fn lemma_data_of_push(sv: Seq<(u64, Seq<u8>)>, s: (u64, Seq<u8>), g: u64)
    requires
        g != s.0,
    ensures
        has_gen(sv.push(s), g) == has_gen(sv, g),
        data_of(sv.push(s), g) == data_of(sv, g),
{
    assert(sv.push(s).drop_last() =~= sv);
}

impl KvStore {
    /// The records of each segment.
    pub closed spec fn records(&self) -> Seq<Seq<RecordView>> {
        self.log@
    }

    /// The live map: the records of the log replayed in order.
    pub closed spec fn live(&self) -> Map<Seq<char>, Seq<char>> {
        replay(flatten(self.log@))
    }

    pub closed spec fn segs(&self) -> Seq<(u64, Seq<u8>)> {
        segs_view(self.segments@)
    }

    /// Segments hold their records, in increasing generation order, none below
    /// the safe point, and the index locates the live record of each live key.
    closed spec fn inv(&self) -> bool {
        &&& self.log@.len() == self.segments@.len()
        &&& forall|i: int|
            0 <= i < self.segments@.len() ==> (#[trigger] self.segments@[i]).data@ == encode_all(
                self.log@[i],
            )
        &&& forall|i: int, j: int|
            0 <= i < j < self.segments@.len() ==> (#[trigger] self.segments@[i]).gen
                < (#[trigger] self.segments@[j]).gen
        &&& self.segments@.len() > 0 ==> self.safe_point <= self.segments@[0].gen
        &&& forall|i: int| 0 <= i < self.log@.len() ==> nonempty_records(#[trigger] self.log@[i])
        &&& index_entries(self.index).dom() == self.live().dom()
        &&& forall|k: Seq<char>|
            #[trigger] index_entries(self.index).contains_key(k) ==> locates(
                self.segs(),
                index_entries(self.index)[k],
                k,
                self.live()[k],
            )
    }

    /// The store is well formed: `inv`, with an active segment whose
    /// generation is the current one.
    pub closed spec fn wf(&self) -> bool {
        &&& self.inv()
        &&& self.segments@.len() > 0
        &&& self.segments@.last().gen == self.current_gen
    }

    /// Appends a record's bytes to the active segment and brings the index
    /// and the count of dead bytes up to date.
    fn append_record(&mut self, rec: Record, bytes: Vec<u8>)
        requires
            old(self).inv(),
            old(self).segments@.len() > 0,
            bytes@ == record_bytes(record_view(rec)),
            bytes@.len() > 0,
        ensures
            final(self).records().len() == old(self).records().len(),
            final(self).records().last() == old(self).records().last().push(record_view(rec)),
            forall|i: int|
                0 <= i < old(self).records().len() - 1 ==> (#[trigger] final(self).records()[i])
                    == old(self).records()[i],
            final(self).inv(),
            final(self).live() == apply(old(self).live(), record_view(rec)),
            final(self).segments@.len() == old(self).segments@.len(),
            forall|i: int|
                0 <= i < old(self).segments@.len() ==> (#[trigger] final(self).segments@[i]).gen
                    == old(self).segments@[i].gen,
            final(self).segments@.last().data@ == old(self).segments@.last().data@ + bytes@,
            forall|i: int|
                0 <= i < old(self).segments@.len() - 1 ==> (#[trigger] final(self).segments@[i])
                    == old(self).segments@[i],
            final(self).current_gen == old(self).current_gen,
            final(self).safe_point == old(self).safe_point,
            final(self).threshold == old(self).threshold,
            final(self).segs() == old(self).segs().update(
                old(self).segs().len() - 1,
                (old(self).segs().last().0, old(self).segs().last().1 + bytes@),
            ),
            final(self).uncompacted == dead_after(
                old(self).uncompacted,
                old(self).live(),
                record_view(rec),
            ),
            index_entries(final(self).index) == index_after(
                index_entries(old(self).index),
                record_view(rec),
                old(self).segs().last().0,
                old(self).segs().last().1.len(),
                bytes@.len(),
            ),
    {
        let ghost old_self = *self;
        let ghost r = record_view(rec);
        let last = self.segments.len() - 1;
        let mut seg = self.segments.pop().unwrap();
        let gen = seg.gen;
        let pos = seg.data.len();
        let n = bytes.len();
        let mut bytes = bytes;
        seg.data.append(&mut bytes);
        self.segments.push(seg);
        let ghost new_log = self.log@.update(last as int, self.log@[last as int].push(r));
        self.log = Ghost(new_log);
        proof {
            lemma_flatten_push_last(old_self.log@, r);
            lemma_replay_push(flatten(old_self.log@), r);
            lemma_encode_all_push(old_self.log@[last as int], r);
            assert(self.segments@ =~= old_self.segments@.update(last as int, self.segments@[last as int]));
            assert(self.segs() =~= old_self.segs().update(
                last as int,
                (old_self.segs().last().0, old_self.segs().last().1 + record_bytes(r)),
            ));
        }
        match rec {
            Ok((k, _v)) => {
                match index_get(&self.index, &k) {
                    Some(o) => {
                        proof {
                            assert(locates(old_self.segs(), o, k@, old_self.live()[k@]));
                        }
                        self.uncompacted = self.uncompacted.saturating_add(o.2 as u64);
                    },
                    None => {},
                }
                index_insert(&mut self.index, k, (gen, pos, n));
            },
            Err(k) => {
                match index_remove(&mut self.index, &k) {
                    Some(o) => {
                        proof {
                            assert(locates(old_self.segs(), o, k@, old_self.live()[k@]));
                        }
                        self.uncompacted = self.uncompacted.saturating_add(o.2 as u64);
                    },
                    None => {},
                }
                self.uncompacted = self.uncompacted.saturating_add(n as u64);
            },
        }
        proof {
            assert(self.live() == apply(old_self.live(), r));
            assert(index_entries(self.index).dom() =~= self.live().dom());
            assert forall|k: Seq<char>| #[trigger]
                index_entries(self.index).contains_key(k) implies locates(
                self.segs(),
                index_entries(self.index)[k],
                k,
                self.live()[k],
            ) by {
                let l = index_entries(self.index)[k];
                lemma_data_of_extend_last(old_self.segs(), record_bytes(r), l.0);
                match r {
                    Ok((rk, rv)) => {
                        if k == rk {
                            lemma_data_of_extend_last(old_self.segs(), record_bytes(r), gen);
                            assert(has_gen(self.segs(), gen));
                            assert(data_of(self.segs(), gen) == data_of(old_self.segs(), gen)
                                + record_bytes(r));
                            assert(data_of(old_self.segs(), gen) == old_self.segs().last().1);
                            assert(data_of(self.segs(), gen).subrange(pos as int, pos + n)
                                =~= record_bytes(r));
                        } else {
                            let ol = index_entries(old_self.index)[k];
                            assert(ol == l);
                            lemma_subrange_of_prefix(
                                data_of(old_self.segs(), l.0),
                                record_bytes(r),
                                l.1 as int,
                                l.1 + l.2,
                            );
                        }
                    },
                    Err(rk) => {
                        let ol = index_entries(old_self.index)[k];
                        assert(ol == l);
                        lemma_subrange_of_prefix(
                            data_of(old_self.segs(), l.0),
                            record_bytes(r),
                            l.1 as int,
                            l.1 + l.2,
                        );
                    },
                }
            }
            assert forall|i: int|
                0 <= i < self.segments@.len() implies (#[trigger] self.segments@[i]).data@
                == encode_all(self.log@[i]) by {
                if i != last {
                    assert(self.segments@[i] == old_self.segments@[i]);
                }
            }
            assert forall|i: int| 0 <= i < self.log@.len() implies nonempty_records(
                #[trigger] self.log@[i],
            ) by {
                if i == last {
                    assert forall|j: int| 0 <= j < self.log@[i].len() implies record_bytes(
                        #[trigger] self.log@[i][j],
                    ).len() > 0 by {
                        if j < old_self.log@[i].len() {
                            assert(self.log@[i][j] == old_self.log@[i][j]);
                        }
                    }
                }
            }
        }
    }

    /// The index of the segment of generation `g`, if there is one.
    fn find_segment(&self, g: u64) -> (r: Option<usize>)
        ensures
            match r {
                Some(i) => i < self.segments@.len() && self.segments@[i as int].gen == g
                    && self.segments@[i as int].data@ == data_of(self.segs(), g),
                None => !has_gen(self.segs(), g),
            },
    {
        let mut i: usize = self.segments.len();
        assert(self.segs().take(i as int) =~= self.segs());
        while i > 0
            invariant
                i <= self.segments@.len(),
                data_of(self.segs(), g) == data_of(self.segs().take(i as int), g),
                has_gen(self.segs(), g) == has_gen(self.segs().take(i as int), g),
            decreases i,
        {
            let ghost t = self.segs().take(i as int);
            assert(t.drop_last() =~= self.segs().take(i - 1));
            if self.segments[i - 1].gen == g {
                return Some(i - 1);
            }
            i = i - 1;
        }
        assert(self.segs().take(0) =~= Seq::<(u64, Seq<u8>)>::empty());
        None
    }

    /// The value of the record at `l`, which the index holds for `k`.
    fn read_value(&self, k: &String, l: Locator) -> (r: Option<String>)
        requires
            self.inv(),
            index_entries(self.index).contains_key(k@),
            index_entries(self.index)[k@] == l,
        ensures
            r matches Some(v) && v@ == self.live()[k@],
    {
        let ghost x: RecordView = Ok((k@, self.live()[k@]));
        match self.find_segment(l.0) {
            Some(i) => {
                let data = &self.segments[i].data;
                assert(locates(self.segs(), l, k@, self.live()[k@]));
                let dl = data.len();
                assert(l.1 + l.2 <= dl);
                let bytes = slice_subrange(data.as_slice(), l.1, l.1 + l.2);
                assert(bytes@.take(record_bytes(x).len() as int) =~= bytes@);
                match decode_record(bytes) {
                    Ok((Ok((found, v)), _)) => if found == *k {
                        Some(v)
                    } else {
                        None
                    },
                    _ => None,
                }
            },
            None => None,
        }
    }

    /// The value of `key`, or `None` when it is not live.
    pub fn get(&self, key: String) -> (r: Result<Option<String>, KvsError>)
        requires
            self.wf(),
        ensures
            r is Ok,
            r matches Ok(Some(v)) ==> self.live().contains_key(key@) && v@ == self.live()[key@],
            r matches Ok(None) ==> !self.live().contains_key(key@),
    {
        match index_get(&self.index, &key) {
            Some(l) => match self.read_value(&key, l) {
                Some(v) => Ok(Some(v)),
                None => Err(KvsError::UnexpectedCommandType),
            },
            None => Ok(None),
        }
    }

    /// Sets `key` to `value`, compacting when the dead bytes pass the threshold.
    pub fn set(&mut self, key: String, value: String) -> (r: Result<(), KvsError>)
        requires
            old(self).wf(),
        ensures
            final(self).wf(),
            r is Ok,
            final(self).live() == old(self).live().insert(key@, value@),
            old(self).wrote(*final(self), Ok((key@, value@))),
    {
        let rec: Record = Ok((key, value));
        match encode_record(&rec) {
            Some(bytes) => self.append_record(rec, bytes),
            None => return Err(KvsError::DecodeError),
        }
        if self.uncompacted > self.threshold {
            self.compact();
        }
        Ok(())
    }

    /// Removes `key`; `KeyNotFound`, with nothing written, when it is not live.
    pub fn remove(&mut self, key: String) -> (r: Result<(), KvsError>)
        requires
            old(self).wf(),
        ensures
            final(self).wf(),
            old(self).live().contains_key(key@) ==> r is Ok && final(self).live() == old(
                self,
            ).live().remove(key@),
            !old(self).live().contains_key(key@) ==> r == Err::<(), KvsError>(
                KvsError::KeyNotFound,
            ) && final(self).live() == old(self).live() && final(self).segs() == old(
                self,
            ).segs(),
            old(self).live().contains_key(key@) ==> old(self).wrote(*final(self), Err(key@)),
            !old(self).live().contains_key(key@) ==> final(self).dead_bytes() == old(
                self,
            ).dead_bytes() && final(self).index_view() == old(self).index_view()
                && final(self).threshold_spec() == old(self).threshold_spec()
                && final(self).current_gen_spec() == old(self).current_gen_spec(),
    {
        match index_get(&self.index, &key) {
            None => Err(KvsError::KeyNotFound),
            Some(_) => {
                let rec: Record = Err(key);
                match encode_record(&rec) {
                    Some(bytes) => self.append_record(rec, bytes),
                    None => return Err(KvsError::DecodeError),
                }
                if self.uncompacted > self.threshold {
                    self.compact();
                }
                Ok(())
            },
        }
    }

    /// Rewrites the live records into a new segment of generation
    /// `current + 1`, opens an empty active segment of generation
    /// `current + 2`, publishes the safe point and drops every older segment.
    /// The live map is unchanged.
    #[verifier::rlimit(100)]
    #[verifier::spinoff_prover]
    pub fn compact(&mut self)
        requires
            old(self).wf(),
        ensures
            final(self).wf(),
            final(self).live() == old(self).live(),
            final(self).threshold_spec() == old(self).threshold_spec(),
            old(self).current_gen_spec() <= u64::MAX - 2 ==> final(self).compacted_from(
                old(self).current_gen_spec(),
                old(self).live(),
            ),
            old(self).current_gen_spec() <= u64::MAX - 2 ==> forall|k: Seq<char>|
                #[trigger] old(self).index_view().contains_key(k) ==> {
                    let n = final(self).index_view()[k];
                    let l = old(self).index_view()[k];
                    final(self).segs()[0].1.subrange(n.1 as int, n.1 + n.2) == data_of(
                        old(self).segs(),
                        l.0,
                    ).subrange(l.1 as int, l.1 + l.2)
                },
            old(self).current_gen_spec() > u64::MAX - 2 ==> {
                &&& final(self).segs() == old(self).segs()
                &&& final(self).records() == old(self).records()
                &&& final(self).index_view() == old(self).index_view()
                &&& final(self).safe_point_spec() == old(self).safe_point_spec()
                &&& final(self).current_gen_spec() == old(self).current_gen_spec()
                &&& final(self).dead_bytes() == old(self).dead_bytes()
            },
    {
        if self.current_gen > u64::MAX - 2 {
            return ;
        }
        let cgen = self.current_gen + 1;
        let agen = self.current_gen + 2;
        let entries = index_all(&self.index);
        let ghost live = self.live();
        let ghost old_index = index_entries(self.index);
        let ghost old_self = *self;
        let mut data: Vec<u8> = Vec::new();
        let ghost mut recs: Seq<RecordView> = Seq::empty();
        let mut i: usize = 0;
        while i < entries.len()
            invariant
                i <= entries@.len(),
                old_self.inv(),
                self.segments == old_self.segments,
                self.log == old_self.log,
                self.threshold == old_self.threshold,
                live == old_self.live(),
                old_index == index_entries(old_self.index),
                ascending(entries@),
                forall|j: int|
                    0 <= j < entries@.len() ==> old_index.contains_key(#[trigger] entries@[j].0@)
                        && old_index[entries@[j].0@] == entries@[j].1,
                forall|k: Seq<char>|
                    #[trigger] old_index.contains_key(k) ==> exists|j: int|
                        0 <= j < entries@.len() && entries@[j].0@ == k,
                index_entries(self.index).dom() == old_index.dom(),
                forall|j: int|
                    0 <= j < i ==> {
                        let l = index_entries(self.index)[(#[trigger] entries@[j]).0@];
                        &&& l.0 == cgen
                        &&& l.1 + l.2 <= data@.len()
                        &&& data@.subrange(l.1 as int, l.1 + l.2) == record_bytes(
                            Ok((entries@[j].0@, live[entries@[j].0@])),
                        )
                    },
                forall|j: int|
                    i <= j < entries@.len() ==> index_entries(self.index)[(
                    #[trigger] entries@[j]).0@] == old_index[entries@[j].0@],
                data@ == encode_all(recs),
                recs == set_records(entry_keys(entries@).take(i as int), live),
                forall|j: int|
                    0 <= j < i ==> {
                        let l = index_entries(self.index)[(#[trigger] entries@[j]).0@];
                        &&& l.1 == encode_all(
                            set_records(entry_keys(entries@).take(j), live),
                        ).len()
                        &&& l.2 == old_index[entries@[j].0@].2
                    },
                nonempty_records(recs),
                forall|k: Seq<char>|
                    #[trigger] replay(recs).contains_key(k) ==> live.contains_key(k)
                        && replay(recs)[k] == live[k],
                forall|j: int| 0 <= j < i ==> replay(recs).contains_key((#[trigger] entries@[j]).0@),
            decreases entries@.len() - i,
        {
            let l = entries[i].1;
            let ghost k = entries@[i as int].0@;
            let ghost x: RecordView = Ok((k, live[k]));
            assert(locates(old_self.segs(), l, k, live[k]));
            let si = match self.find_segment(l.0) {
                Some(si) => si,
                None => {
                    assert(false);
                    0
                },
            };
            let dl = self.segments[si].data.len();
            assert(l.1 + l.2 <= dl);
            let src = slice_subrange(self.segments[si].data.as_slice(), l.1, l.1 + l.2);
            let mut bytes = slice_to_vec(src);
            let pos = data.len();
            let ghost prev = data@;
            let ghost copied = bytes@;
            data.append(&mut bytes);
            index_insert(&mut self.index, entries[i].0.clone(), (cgen, pos, l.2));
            proof {
                lemma_encode_all_push(recs, x);
                lemma_replay_push(recs, x);
                let ks = entry_keys(entries@);
                assert(ks[i as int] == k);
                assert(set_records(ks.take(i + 1), live) =~= set_records(ks.take(i as int), live).push(
                    x,
                ));
                assert forall|j: int| 0 <= j < i + 1 implies {
                    let l2 = index_entries(self.index)[(#[trigger] entries@[j]).0@];
                    &&& l2.1 == encode_all(set_records(ks.take(j), live)).len()
                    &&& l2.2 == old_index[entries@[j].0@].2
                } by {
                    if j < i {
                        assert(key_lt(entries@[j].0@, k));
                        lemma_key_lt_irreflexive(k);
                    }
                }
                recs = recs.push(x);
                assert(data@.subrange(pos as int, pos + l.2) =~= copied);
                assert(copied =~= src@.subrange(0, l.2 as int));
                assert forall|j: int| 0 <= j < recs.len() implies record_bytes(
                    #[trigger] recs[j],
                ).len() > 0 by {
                    if j < recs.len() - 1 {
                        assert(recs[j] == recs.drop_last()[j]);
                    }
                }
                assert forall|j: int| 0 <= j < i + 1 implies {
                    let l2 = index_entries(self.index)[(#[trigger] entries@[j]).0@];
                    &&& l2.0 == cgen
                    &&& l2.1 + l2.2 <= data@.len()
                    &&& data@.subrange(l2.1 as int, l2.1 + l2.2) == record_bytes(
                        Ok((entries@[j].0@, live[entries@[j].0@])),
                    )
                } by {
                    if j < i {
                        assert(key_lt(entries@[j].0@, k));
                        lemma_key_lt_irreflexive(k);
                        let l2 = index_entries(self.index)[entries@[j].0@];
                        lemma_subrange_of_prefix(prev, copied, l2.1 as int, l2.1 + l2.2);
                    } else {
                        assert(data@.subrange(pos as int, pos + l.2) =~= record_bytes(x));
                    }
                }
                assert forall|j: int| i + 1 <= j < entries@.len() implies index_entries(
                    self.index,
                )[(#[trigger] entries@[j]).0@] == old_index[entries@[j].0@] by {
                    assert(key_lt(k, entries@[j].0@));
                    lemma_key_lt_irreflexive(k);
                }
                assert(index_entries(self.index).dom() =~= old_index.dom());
            }
            i = i + 1;
        }
        let mut segments: Vec<Segment> = Vec::new();
        segments.push(Segment { gen: cgen, data });
        segments.push(Segment { gen: agen, data: Vec::new() });
        self.segments = segments;
        let ghost new_log = seq![recs, Seq::<RecordView>::empty()];
        self.log = Ghost(new_log);
        self.current_gen = agen;
        self.safe_point = cgen;
        self.uncompacted = 0;
        proof {
            assert(entry_keys(entries@).take(entries@.len() as int) =~= entry_keys(entries@));
            lemma_compaction_result(*self, old_self, entries@, recs, cgen);
        }
    }

    /// `self` is what compacting a store of current generation `g` and live
    /// map `live` leaves: one segment of generation `g + 1` holding one record
    /// per live key in ascending key order, with the index pointing at each,
    /// and an empty active segment of generation `g + 2`; the safe point is
    /// `g + 1` and no byte is dead.
    pub open spec fn compacted_from(&self, g: u64, live: Map<Seq<char>, Seq<char>>) -> bool {
        &&& self.current_gen_spec() == g + 2
        &&& self.segs().len() == 2
        &&& self.segs()[0].0 == g + 1
        &&& self.segs()[1].0 == g + 2
        &&& self.segs()[1].1.len() == 0
        &&& self.safe_point_spec() == g + 1
        &&& self.dead_bytes() == 0
        &&& self.live() == live
        &&& self.index_view().dom() == live.dom()
        &&& exists|ks: Seq<Seq<char>>|
            #[trigger] all_keys_ascending(ks, live) && self.records() == seq![
                set_records(ks, live),
                Seq::<RecordView>::empty(),
            ] && self.segs()[0].1 == encode_all(set_records(ks, live)) && forall|i: int|
                0 <= i < ks.len() ==> #[trigger] self.index_view()[ks[i]] == (
                    (g + 1) as u64,
                    encode_all(set_records(ks.take(i), live)).len() as usize,
                    record_bytes(Ok((ks[i], live[ks[i]]))).len() as usize,
                )
    }

    /// `next` is what writing `rec` leaves: the record appended to the active
    /// segment, the index pointing at it (or without the removed key) and the
    /// dead bytes counted; or, when the count then passes the threshold, the
    /// compacted store.
    pub open spec fn wrote(&self, next: KvStore, rec: RecordView) -> bool {
        let d = dead_after(self.dead_bytes(), self.live(), rec);
        &&& next.threshold_spec() == self.threshold_spec()
        &&& next.live() == apply(self.live(), rec)
        &&& if d > self.threshold_spec() && self.current_gen_spec() <= u64::MAX - 2 {
            next.compacted_from(self.current_gen_spec(), apply(self.live(), rec))
        } else {
            &&& next.dead_bytes() == d
            &&& next.current_gen_spec() == self.current_gen_spec()
            &&& next.safe_point_spec() == self.safe_point_spec()
            &&& next.segs() == self.segs().update(
                self.segs().len() - 1,
                (self.segs().last().0, self.segs().last().1 + record_bytes(rec)),
            )
            &&& next.index_view() == index_after(
                self.index_view(),
                rec,
                self.segs().last().0,
                self.segs().last().1.len(),
                record_bytes(rec).len(),
            )
        }
    }

    /// The count of bytes in the log known to be dead.
    pub closed spec fn dead_bytes(&self) -> u64 {
        self.uncompacted
    }

    /// The count of dead bytes beyond which a write compacts the log.
    pub closed spec fn threshold_spec(&self) -> u64 {
        self.threshold
    }

    /// Each live key and the locator of its record.
    pub closed spec fn index_view(&self) -> Map<Seq<char>, Locator> {
        index_entries(self.index)
    }

    /// The generation of the active segment.
    pub closed spec fn current_gen_spec(&self) -> u64 {
        self.current_gen
    }

    /// The generation below which no segment remains.
    pub closed spec fn safe_point_spec(&self) -> u64 {
        self.safe_point
    }

    /// The values of the live keys from `start` to `end`, both included, in
    /// ascending key order.
    pub fn scan(&self, start: String, end: String) -> (r: Result<Vec<String>, KvsError>)
        requires
            self.wf(),
        ensures
            r is Ok,
            r matches Ok(vs) ==> exists|ks: Seq<Seq<char>>|
                #[trigger] keys_in_range(ks, self.live(), start@, end@) && views(vs@) == values_at(ks, self.live()),
    {
        let entries = index_range(&self.index, &start, &end);
        let ghost ks = entries@.map_values(|e: (String, Locator)| e.0@);
        let mut res: Vec<String> = Vec::new();
        let mut i: usize = 0;
        while i < entries.len()
            invariant
                self.wf(),
                i <= entries@.len(),
                ks == entries@.map_values(|e: (String, Locator)| e.0@),
                forall|j: int|
                    0 <= j < entries@.len() ==> index_entries(self.index).contains_key(
                        #[trigger] entries@[j].0@,
                    ) && index_entries(self.index)[entries@[j].0@] == entries@[j].1,
                views(res@) == values_at(ks.take(i as int), self.live()),
                res@.len() == i,
            decreases entries@.len() - i,
        {
            let ghost k = entries@[i as int].0@;
            let ghost prev = res@;
            assert(ks[i as int] == k);
            match self.read_value(&entries[i].0, entries[i].1) {
                Some(v) => {
                    res.push(v);
                    proof {
                        assert forall|j: int| 0 <= j < i + 1 implies #[trigger] views(res@)[j]
                            == values_at(ks.take(i + 1), self.live())[j] by {
                            if j < i {
                                assert(res@[j] == prev[j]);
                                assert(views(prev)[j] == values_at(ks.take(
                                    i as int,
                                ), self.live())[j]);
                            }
                        }
                    }
                },
                None => {
                    return Err(KvsError::UnexpectedCommandType);
                },
            }
            assert(views(res@) =~= values_at(ks.take(i + 1), self.live()));
            i = i + 1;
        }
        proof {
            assert(ks.take(entries@.len() as int) =~= ks);
            assert(index_entries(self.index).dom() == self.live().dom());
            assert forall|a: int, b: int| 0 <= a < b < ks.len() implies key_lt(
                #[trigger] ks[a],
                #[trigger] ks[b],
            ) by {
                assert(key_lt(entries@[a].0@, entries@[b].0@));
            }
            assert forall|a: int| 0 <= a < ks.len() implies self.live().contains_key(
                #[trigger] ks[a],
            ) && key_le(start@, ks[a]) && key_le(ks[a], end@) by {
                assert(ks[a] == entries@[a].0@);
            }
            assert forall|k: Seq<char>| #[trigger]
                self.live().contains_key(k) && key_le(start@, k) && key_le(k, end@) implies exists|
                a: int,
            | 0 <= a < ks.len() && ks[a] == k by {
                assert(index_entries(self.index).contains_key(k));
                let a = choose|a: int| 0 <= a < entries@.len() && entries@[a].0@ == k;
                assert(ks[a] == k);
            }
            assert(keys_in_range(ks, self.live(), start@, end@));
        }
        Ok(res)
    }

    /// The segments, oldest first; the last is the active one.
    pub fn segments(&self) -> (r: &Vec<Segment>)
        ensures
            segs_view(r@) == self.segs(),
    {
        &self.segments
    }

    /// The generation of the active segment.
    pub fn current_gen(&self) -> (r: u64)
        ensures
            r == self.current_gen_spec(),
    {
        self.current_gen
    }

    /// The published safe point.
    pub fn safe_point(&self) -> (r: u64)
        ensures
            r == self.safe_point_spec(),
    {
        self.safe_point
    }

    /// Sets the count of dead bytes beyond which a write compacts the log.
    pub fn set_compaction_threshold(&mut self, threshold: u64)
        requires
            old(self).wf(),
        ensures
            final(self).wf(),
            final(self).threshold_spec() == threshold,
            final(self).live() == old(self).live(),
            final(self).segs() == old(self).segs(),
            final(self).records() == old(self).records(),
            final(self).index_view() == old(self).index_view(),
            final(self).dead_bytes() == old(self).dead_bytes(),
            final(self).current_gen_spec() == old(self).current_gen_spec(),
            final(self).safe_point_spec() == old(self).safe_point_spec(),
    {
        self.threshold = threshold;
    }

    /// Rebuilds a store from its segments, oldest first, by replaying their
    /// records into a fresh index. A segment whose last record is cut short
    /// (a write torn by a crash) is kept up to that record; bytes that cannot
    /// be a record fail with `DecodeError`. With no segment, the store starts
    /// an empty one of generation 1.
    pub fn open(segments: Vec<Segment>) -> (r: Result<KvStore, KvsError>)
        ensures
            r is Ok ==> gens_increasing(segments@),
            !gens_increasing(segments@) ==> r is Err,
            r matches Err(e) ==> e is StringError || e is DecodeError,
            r matches Ok(s) ==> {
                &&& s.wf()
                &&& s.safe_point_spec() == 0
                &&& s.threshold_spec() == COMPACTION_THRESHOLD
                &&& s.dead_bytes() == replay_dead(flatten(s.records()))
                &&& segments@.len() == 0 ==> s.segs().len() == 1 && s.segs()[0].0 == 1
                    && s.segs()[0].1.len() == 0
                    && s.live() == Map::<Seq<char>, Seq<char>>::empty()
                &&& segments@.len() > 0 ==> s.segs().len() == segments@.len()
                &&& forall|i: int|
                    0 <= i < segments@.len() ==> {
                        &&& s.segs()[i].0 == (#[trigger] segments@[i]).gen
                        &&& s.segs()[i].1.len() <= segments@[i].data@.len()
                        &&& s.segs()[i].1 == segments@[i].data@.take(s.segs()[i].1.len() as int)
                    }
            },
            forall|log: Seq<Seq<RecordView>>, tails: Seq<Seq<u8>>|
                #[trigger] readable_segments(segments@, log, tails) ==> r is Ok && (
                r->Ok_0).records() == log && (r->Ok_0).live() == replay(flatten(log)),
    {
        let mut c: usize = 1;
        while c < segments.len()
            invariant
                1 <= c,
                forall|i: int, j: int|
                    0 <= i < j < c && j < segments@.len() ==> (#[trigger] segments@[i]).gen < (
                    #[trigger] segments@[j]).gen,
            decreases segments@.len() - c,
        {
            if segments[c - 1].gen >= segments[c].gen {
                return Err(KvsError::StringError("segment generations do not increase".to_owned()));
            }
            c = c + 1;
        }
        let mut store = KvStore {
            index: index_new(),
            segments: Vec::new(),
            current_gen: 0,
            uncompacted: 0,
            threshold: COMPACTION_THRESHOLD,
            safe_point: 0,
            log: Ghost(Seq::empty()),
        };
        assert(index_entries(store.index).dom() =~= store.live().dom());
        let mut i: usize = 0;
        while i < segments.len()
            invariant
                i <= segments@.len(),
                gens_increasing(segments@),
                store.inv(),
                store.safe_point == 0,
                store.threshold == COMPACTION_THRESHOLD,
                store.uncompacted == replay_dead(flatten(store.log@)),
                store.segments@.len() == i,
                store.log@.len() == i,
                forall|j: int|
                    0 <= j < i ==> {
                        &&& store.segs()[j].0 == (#[trigger] segments@[j]).gen
                        &&& store.segs()[j].1.len() <= segments@[j].data@.len()
                        &&& store.segs()[j].1 == segments@[j].data@.take(
                            store.segs()[j].1.len() as int,
                        )
                        &&& forall|rs: Seq<RecordView>, t: Seq<u8>|
                            #[trigger] whole_then_torn(segments@[j].data@, rs, t) ==> store.log@[j]
                                == rs
                    },
            decreases segments@.len() - i,
        {
            let gen = segments[i].gen;
            let ghost before = store;
            store.segments.push(Segment { gen, data: Vec::new() });
            let ghost pushed = store.log@.push(Seq::<RecordView>::empty());
            store.log = Ghost(pushed);
            proof {
                assert(store.segs() =~= before.segs().push((gen, Seq::<u8>::empty())));
                assert(flatten(store.log@) =~= flatten(before.log@)) by {
                    assert(store.log@.drop_last() =~= before.log@);
                }

                assert forall|j: int| 0 <= j < before.segs().len() implies (
                #[trigger] before.segs()[j]).0 < gen by {
                    assert(before.segs()[j].0 == segments@[j].gen);
                }
                assert forall|k: Seq<char>| #[trigger]
                    index_entries(store.index).contains_key(k) implies locates(
                    store.segs(),
                    index_entries(store.index)[k],
                    k,
                    store.live()[k],
                ) by {
                    let l = index_entries(store.index)[k];
                    assert(locates(before.segs(), l, k, before.live()[k]));
                    lemma_has_gen_below(before.segs(), l.0, gen);
                    lemma_data_of_push(before.segs(), (gen, Seq::<u8>::empty()), l.0);
                }
                assert(nonempty_records(store.log@[i as int]));
                assert forall|a: int, b: int|
                    0 <= a < b < store.segments@.len() implies (
                    #[trigger] store.segments@[a]).gen < (#[trigger] store.segments@[b]).gen by {
                    if b == i {
                        assert(before.segs()[a].0 == segments@[a].gen);
                        assert(store.segments@[a] == before.segments@[a]);
                    } else {
                        assert(store.segments@[a] == before.segments@[a]);
                        assert(store.segments@[b] == before.segments@[b]);
                    }
                }
                assert forall|a: int| 0 <= a < store.segments@.len() implies (
                #[trigger] store.segments@[a]).data@ == encode_all(store.log@[a]) by {
                    if a < i {
                        assert(store.segments@[a] == before.segments@[a]);
                    } else {
                        assert(encode_all(Seq::<RecordView>::empty()) =~= Seq::<u8>::empty());
                    }
                }
            }
            let data = &segments[i].data;
            let mut pos: usize = 0;
            let mut torn = false;
            while pos < data.len() && !torn
                invariant
                    i < segments@.len(),
                    data == segments@[i as int].data,
                    gens_increasing(segments@),
                    pos <= data@.len(),
                    store.inv(),
                    store.safe_point == 0,
                    store.threshold == COMPACTION_THRESHOLD,
                        store.uncompacted == replay_dead(flatten(store.log@)),
                    store.segments@.len() == i + 1,
                    store.segs()[i as int].0 == gen,
                    gen == segments@[i as int].gen,
                    store.segs()[i as int].1 == data@.take(pos as int),
                    forall|j: int|
                        0 <= j < i ==> {
                            &&& store.segs()[j].0 == (#[trigger] segments@[j]).gen
                            &&& store.segs()[j].1.len() <= segments@[j].data@.len()
                            &&& store.segs()[j].1 == segments@[j].data@.take(
                                store.segs()[j].1.len() as int,
                            )
                            &&& forall|rs: Seq<RecordView>, t: Seq<u8>|
                                #[trigger] whole_then_torn(segments@[j].data@, rs, t)
                                    ==> store.log@[j] == rs
                        },
                    forall|rs: Seq<RecordView>, t: Seq<u8>|
                        #[trigger] whole_then_torn(data@, rs, t) ==> {
                            &&& store.log@[i as int].len() <= rs.len()
                            &&& store.log@[i as int] == rs.take(store.log@[i as int].len() as int)
                            &&& torn ==> store.log@[i as int].len() == rs.len()
                        },
                decreases data@.len() - pos + (if torn {
                    0int
                } else {
                    1int
                }),
            {
                let rest = slice_subrange(data.as_slice(), pos, data.len());
                let ghost cur = store.log@[i as int];
                let ghost before = store;
                proof {
                    assert(store.segments@[i as int].data@ == encode_all(cur));
                    assert(store.segs()[i as int].1 == store.segments@[i as int].data@);
                    assert(data@ =~= data@.take(pos as int) + rest@);
                    assert forall|rs: Seq<RecordView>, t: Seq<u8>| #[trigger]
                        whole_then_torn(data@, rs, t) implies {
                        &&& cur.len() < rs.len() ==> {
                            let x = rs[cur.len() as int];
                            &&& record_bytes(x).len() <= rest@.len()
                            &&& rest@.take(record_bytes(x).len() as int) == record_bytes(x)
                        }
                        &&& cur.len() == rs.len() ==> rest@ == t && t.len() > 0
                    } by {
                        let m = cur.len() as int;
                        assert(cur =~= rs.take(m));
                        if m == rs.len() {
                            assert(rs.take(m) =~= rs);
                            assert(rest@ =~= t);
                        } else {
                            lemma_exact_next(rs, m);
                            let x = rs[m];
                            assert(rest@ =~= record_bytes(x) + (encode_all(rs.skip(m + 1)) + t));
                            assert(rest@.take(record_bytes(x).len() as int) =~= record_bytes(x));
                        }
                    }
                }
                match decode_record(rest) {
                    Ok((rec, n)) => {
                        let e = match encode_record(&rec) {
                            Some(e) => e,
                            None => return Err(KvsError::DecodeError),
                        };
                        let piece = slice_subrange(data.as_slice(), pos, pos + n);
                        if bytes_equal(e.as_slice(), piece) {
                            let ghost fl = flatten(store.log@);
                            proof {
                                lemma_encode_all_push(cur, record_view(rec));
                                lemma_flatten_push_last(store.log@, record_view(rec));
                                assert(fl.push(record_view(rec)).drop_last() =~= fl);
                                assert(store.log@.update(i as int, store.log@[i as int].push(
                                    record_view(rec),
                                )) =~= store.log@.update(
                                    store.log@.len() - 1,
                                    store.log@.last().push(record_view(rec)),
                                ));
                            }
                            store.append_record(rec, e);
                            pos = pos + n;
                            proof {
                                assert(store.log@ =~= before.log@.update(
                                    i as int,
                                    before.log@[i as int].push(record_view(rec)),
                                ));
                                assert(flatten(store.log@) == fl.push(record_view(rec)));
                                assert(replay_dead(fl.push(record_view(rec))) == dead_after(
                                    replay_dead(fl),
                                    replay(fl),
                                    record_view(rec),
                                ));
                                assert(store.segments@[i as int].data@ == encode_all(
                                    store.log@[i as int],
                                ));
                                assert(data@.take(pos as int) =~= data@.take(pos - n) + piece@);
                                assert forall|j: int| 0 <= j < i implies store.segs()[j]
                                    == before.segs()[j] && store.log@[j] == before.log@[j] by {
                                    assert(store.segments@[j] == before.segments@[j]);
                                    assert(store.records()[j] == before.records()[j]);
                                }
                                assert forall|rs: Seq<RecordView>, t: Seq<u8>| #[trigger]
                                    whole_then_torn(data@, rs, t) implies {
                                    &&& store.log@[i as int].len() <= rs.len()
                                    &&& store.log@[i as int] == rs.take(
                                        store.log@[i as int].len() as int,
                                    )
                                } by {
                                    let m = cur.len() as int;
                                    if m == rs.len() {
                                        let x = choose|x: RecordView| #[trigger] torn_record(t, x);
                                        assert(record_bytes(x).take(rest@.len() as int) == rest@);
                                    } else {
                                        let x = rs[m];
                                        assert(record_bytes(x).len() <= rest@.len());
                                        assert(store.log@[i as int] =~= rs.take(m + 1));
                                    }
                                }
                            }
                        } else {
                            proof {
                                assert forall|rs: Seq<RecordView>, t: Seq<u8>| !#[trigger]
                                    whole_then_torn(data@, rs, t) by {
                                    if whole_then_torn(data@, rs, t) {
                                        let m = cur.len() as int;
                                        if m == rs.len() {
                                            let x = choose|x: RecordView| #[trigger] torn_record(t, x);
                                            assert(record_bytes(x).take(rest@.len() as int) == rest@);
                                        } else {
                                            let x = rs[m];
                                            assert(record_bytes(x).len() <= rest@.len());
                                            assert(piece@ =~= rest@.take(n as int));
                                        }
                                    }
                                }
                                assert forall|log: Seq<Seq<RecordView>>, tails: Seq<Seq<u8>>|
                                    !#[trigger] readable_segments(segments@, log, tails) by {
                                    if readable_segments(segments@, log, tails) {
                                        assert(whole_then_torn(
                                            segments@[i as int].data@,
                                            log[i as int],
                                            tails[i as int],
                                        ));
                                    }
                                }
                            }
                            return Err(KvsError::DecodeError);
                        }
                    },
                    Err(DecodeFailure::Incomplete) => {
                        torn = true;
                        proof {
                            assert forall|rs: Seq<RecordView>, t: Seq<u8>| #[trigger]
                                whole_then_torn(data@, rs, t) implies cur.len() == rs.len() by {
                                if cur.len() < rs.len() {
                                    let x = rs[cur.len() as int];
                                    assert(record_bytes(x).len() <= rest@.len());
                                }
                            }
                        }
                    },
                    Err(DecodeFailure::Malformed) => {
                        proof {
                            assert forall|rs: Seq<RecordView>, t: Seq<u8>| !#[trigger]
                                whole_then_torn(data@, rs, t) by {
                                if whole_then_torn(data@, rs, t) {
                                    let m = cur.len() as int;
                                    if m == rs.len() {
                                        let x = choose|x: RecordView| #[trigger] torn_record(t, x);
                                        assert(record_bytes(x).take(rest@.len() as int) == rest@);
                                    } else {
                                        let x = rs[m];
                                        assert(record_bytes(x).len() <= rest@.len());
                                    }
                                }
                            }
                            assert forall|log: Seq<Seq<RecordView>>, tails: Seq<Seq<u8>>|
                                !#[trigger] readable_segments(segments@, log, tails) by {
                                if readable_segments(segments@, log, tails) {
                                    assert(whole_then_torn(
                                        segments@[i as int].data@,
                                        log[i as int],
                                        tails[i as int],
                                    ));
                                }
                            }
                        }
                        return Err(KvsError::DecodeError);
                    },
                }
            }
            proof {
                assert forall|rs: Seq<RecordView>, t: Seq<u8>| #[trigger]
                    whole_then_torn(data@, rs, t) implies store.log@[i as int] == rs by {
                    let cur = store.log@[i as int];
                    if !torn {
                        assert(pos == data@.len());
                        assert(store.segments@[i as int].data@ == encode_all(cur));
                        assert(store.segs()[i as int].1 == store.segments@[i as int].data@);
                        assert(data@.take(pos as int) =~= data@);
                        if cur.len() < rs.len() {
                            lemma_exact_longer(rs, cur.len() as int);
                            assert(cur =~= rs.take(cur.len() as int));
                        }
                    }
                    assert(rs.take(rs.len() as int) =~= rs);
                }
                assert(store.segs()[i as int].1.len() == pos);
            }
            i = i + 1;
        }
        if store.segments.len() == 0 {
            let ghost before = store;
            store.segments.push(Segment { gen: 1, data: Vec::new() });
            let ghost one = seq![Seq::<RecordView>::empty()];
            store.log = Ghost(one);
            proof {
                assert(flatten(store.log@) =~= Seq::<RecordView>::empty()) by {
                    assert(store.log@.drop_last() =~= Seq::<Seq<RecordView>>::empty());
                }
                assert(flatten(before.log@) =~= Seq::<RecordView>::empty());
                assert(encode_all(Seq::<RecordView>::empty()) =~= Seq::<u8>::empty());
                assert(store.segs()[0] == (1u64, Seq::<u8>::empty()));
                assert(nonempty_records(store.log@[0]));
            }
        }
        let last = store.segments.len() - 1;
        store.current_gen = store.segments[last].gen;
        proof {
            if segments@.len() == 0 {
                assert(flatten(Seq::<Seq<RecordView>>::empty()) =~= Seq::<RecordView>::empty());
                assert(store.live() =~= replay(flatten(Seq::<Seq<RecordView>>::empty())));
            }
            assert forall|log: Seq<Seq<RecordView>>, tails: Seq<Seq<u8>>| #[trigger]
                readable_segments(segments@, log, tails) implies store.records() == log
                && store.live() == replay(flatten(log)) by {
                assert forall|j: int| 0 <= j < log.len() implies store.log@[j] == log[j] by {
                    assert(whole_then_torn(segments@[j].data@, log[j], tails[j]));
                }
                assert(store.log@ =~= log);
            }
        }
        Ok(store)
    }
}

/// What the compaction loop leaves, once the store holds the new segments.
proof fn lemma_compaction_result(
    s: KvStore,
    old_self: KvStore,
    entries: Seq<(String, Locator)>,
    recs: Seq<RecordView>,
    cgen: u64,
)
    requires
        old_self.wf(),
        cgen == old_self.current_gen + 1,
        old_self.current_gen <= u64::MAX - 2,
        s.segments@.len() == 2,
        s.segments@[0].gen == cgen,
        s.segments@[1].gen == cgen + 1,
        s.segments@[1].data@.len() == 0,
        s.log@ == seq![recs, Seq::<RecordView>::empty()],
        s.current_gen == cgen + 1,
        s.safe_point == cgen,
        s.uncompacted == 0,
        s.threshold == old_self.threshold,
        ascending(entries),
        forall|j: int|
            0 <= j < entries.len() ==> index_entries(old_self.index).contains_key(
                #[trigger] entries[j].0@,
            ) && index_entries(old_self.index)[entries[j].0@] == entries[j].1,
        forall|k: Seq<char>|
            #[trigger] index_entries(old_self.index).contains_key(k) ==> exists|j: int|
                0 <= j < entries.len() && entries[j].0@ == k,
        index_entries(s.index).dom() == index_entries(old_self.index).dom(),
        forall|j: int|
            0 <= j < entries.len() ==> {
                let l = index_entries(s.index)[(#[trigger] entries[j]).0@];
                &&& l.0 == cgen
                &&& l.1 + l.2 <= s.segments@[0].data@.len()
                &&& s.segments@[0].data@.subrange(l.1 as int, l.1 + l.2) == record_bytes(
                    Ok((entries[j].0@, old_self.live()[entries[j].0@])),
                )
                &&& l.1 == encode_all(
                    set_records(entry_keys(entries).take(j), old_self.live()),
                ).len()
                &&& l.2 == index_entries(old_self.index)[entries[j].0@].2
            },
        s.segments@[0].data@ == encode_all(recs),
        recs == set_records(entry_keys(entries), old_self.live()),
        nonempty_records(recs),
        forall|k: Seq<char>|
            #[trigger] replay(recs).contains_key(k) ==> old_self.live().contains_key(k)
                && replay(recs)[k] == old_self.live()[k],
        forall|j: int|
            0 <= j < entries.len() ==> replay(recs).contains_key((#[trigger] entries[j]).0@),
    ensures
        s.wf(),
        s.live() == old_self.live(),
        s.compacted_from(old_self.current_gen, old_self.live()),
        forall|k: Seq<char>|
            #[trigger] old_self.index_view().contains_key(k) ==> {
                let n = s.index_view()[k];
                let l = old_self.index_view()[k];
                s.segs()[0].1.subrange(n.1 as int, n.1 + n.2) == data_of(old_self.segs(), l.0).subrange(
                    l.1 as int,
                    l.1 + l.2,
                )
            },
{
    let live = old_self.live();
    let old_index = index_entries(old_self.index);
    let data = s.segments@[0].data@;
    let agen = (cgen + 1) as u64;
    let self_ = s;
            let lg = self_.log@;
            assert(lg.drop_last().drop_last() =~= Seq::<Seq<RecordView>>::empty());
            assert(lg[0] == recs);
            assert(lg[1] =~= Seq::<RecordView>::empty());
            assert(lg.drop_last() =~= seq![recs]);
            assert(flatten(Seq::<Seq<RecordView>>::empty()) =~= Seq::<RecordView>::empty());
            assert(flatten(lg.drop_last()) =~= recs);
            assert(flatten(lg) =~= recs);
            assert(encode_all(Seq::<RecordView>::empty()) =~= Seq::<u8>::empty());
            assert(replay(recs) =~= live) by {
                assert forall|k: Seq<char>| #[trigger] live.contains_key(k) implies replay(
                    recs,
                ).contains_key(k) by {
                    assert(old_index.contains_key(k));
                }
            }
            let sv = self_.segs();
            assert(sv.drop_last().drop_last() =~= Seq::<(u64, Seq<u8>)>::empty());
            assert(sv[0] == (cgen, data));
            assert(sv[1] == (agen, Seq::<u8>::empty()));
            assert(sv.drop_last() =~= seq![(cgen, data)]);
            assert(has_gen(sv.drop_last(), cgen));
            assert(has_gen(sv, cgen));
            assert(data_of(sv.drop_last(), cgen) == data);
            assert(data_of(sv, cgen) == data);
            assert(sv[1].1 =~= Seq::<u8>::empty());
            assert forall|k: Seq<char>| #[trigger]
                index_entries(self_.index).contains_key(k) implies locates(
                self_.segs(),
                index_entries(self_.index)[k],
                k,
                self_.live()[k],
            ) by {
                assert(old_index.contains_key(k));
                let j = choose|j: int| 0 <= j < entries.len() && entries[j].0@ == k;
                assert(entries[j].0@ == k);
            }
            let ks = entry_keys(entries);
            assert(ks.take(ks.len() as int) =~= ks);
            assert forall|a: int, b: int| 0 <= a < b < ks.len() implies key_lt(
                #[trigger] ks[a],
                #[trigger] ks[b],
            ) by {
                assert(key_lt(entries[a].0@, entries[b].0@));
            }
            assert forall|a: int| 0 <= a < ks.len() implies live.contains_key(#[trigger] ks[a]) by {
                assert(old_index.contains_key(entries[a].0@));
            }
            assert forall|k: Seq<char>| #[trigger] live.contains_key(k) implies exists|a: int|
                0 <= a < ks.len() && ks[a] == k by {
                assert(old_index.contains_key(k));
                let j = choose|j: int| 0 <= j < entries.len() && entries[j].0@ == k;
                assert(ks[j] == k);
            }
            assert(all_keys_ascending(ks, live));
            assert forall|a: int| 0 <= a < ks.len() implies #[trigger] self_.index_view()[ks[a]] == (
                cgen,
                encode_all(set_records(ks.take(a), live)).len() as usize,
                record_bytes(Ok((ks[a], live[ks[a]]))).len() as usize,
            ) by {
                assert(ks[a] == entries[a].0@);
                assert(locates(old_self.segs(), old_index[ks[a]], ks[a], live[ks[a]]));
            }
            assert(self_.records() =~= seq![set_records(ks, live), Seq::<RecordView>::empty()]);
            assert(self_.segs()[0].1 == encode_all(set_records(ks, live)));
            assert(self_.index_view().dom() == live.dom());
            assert(self_.compacted_from(old_self.current_gen, live));
            assert forall|k: Seq<char>| #[trigger] old_self.index_view().contains_key(k) implies {
                let n = self_.index_view()[k];
                let l = old_self.index_view()[k];
                self_.segs()[0].1.subrange(n.1 as int, n.1 + n.2) == data_of(old_self.segs(), l.0).subrange(
                    l.1 as int,
                    l.1 + l.2,
                )
            } by {
                assert(locates(old_self.segs(), old_index[k], k, live[k]));
                assert(locates(self_.segs(), self_.index_view()[k], k, live[k]));
            }
}

/// Whether two byte strings are equal.
fn bytes_equal(a: &[u8], b: &[u8]) -> (r: bool)
    ensures
        r == (a@ == b@),
{
    if a.len() != b.len() {
        return false;
    }
    let mut i: usize = 0;
    while i < a.len()
        invariant
            i <= a@.len(),
            a@.len() == b@.len(),
            forall|j: int| 0 <= j < i ==> a@[j] == b@[j],
        decreases a@.len() - i,
    {
        if a[i] != b[i] {
            return false;
        }
        i = i + 1;
    }
    assert(a@ =~= b@);
    true
}

} // verus!

verus! {

/// After `set(k, v)`, `get(k)` finds `v` until `k` is written again.
pub proof fn lemma_get_after_set(before: KvStore, after: KvStore, k: Seq<char>, v: Seq<char>)
    requires
        after.live() == before.live().insert(k, v),
    ensures
        after.live().contains_key(k),
        after.live()[k] == v,
{
}

/// After `remove(k)`, `k` is not live: `get(k)` finds nothing, and a second
/// `remove(k)` is in the case where `remove` returns `KeyNotFound`.
pub proof fn lemma_get_after_remove(before: KvStore, after: KvStore, k: Seq<char>)
    requires
        after.live() == before.live().remove(k),
    ensures
        !after.live().contains_key(k),
{
}

/// A store's segments hold exactly its records, in increasing generation
/// order, and those records replay to its live map: `open` on segments with
/// the same generations and bytes therefore succeeds and rebuilds the same
/// records and live map.
pub proof fn lemma_reopen(s: KvStore, segments: Seq<Segment>)
    requires
        s.wf(),
        segs_view(segments) == s.segs(),
    ensures
        s.records().len() == s.segs().len(),
        forall|i: int| 0 <= i < s.segs().len() ==> exact(#[trigger] s.segs()[i].1, s.records()[i]),
        forall|i: int, j: int|
            0 <= i < j < s.segs().len() ==> #[trigger] s.segs()[i].0 < #[trigger] s.segs()[j].0,
        readable_segments(
            segments,
            s.records(),
            Seq::new(segments.len(), |i: int| Seq::<u8>::empty()),
        ),
        replay(flatten(s.records())) == s.live(),
{
    assert forall|i: int| 0 <= i < s.segs().len() implies exact(
        #[trigger] s.segs()[i].1,
        s.records()[i],
    ) by {
        s.lemma_segment_records(i);
    }
    s.lemma_gens_increasing();
    let tails = Seq::new(segments.len(), |i: int| Seq::<u8>::empty());
    assert(segments.len() == s.segs().len());
    assert forall|i: int, j: int| 0 <= i < j < segments.len() implies (
    #[trigger] segments[i]).gen < (#[trigger] segments[j]).gen by {
        assert(segs_view(segments)[i].0 == segments[i].gen);
        assert(segs_view(segments)[j].0 == segments[j].gen);
    }
    assert forall|i: int| 0 <= i < segments.len() implies whole_then_torn(
        (#[trigger] segments[i]).data@,
        s.records()[i],
        tails[i],
    ) by {
        assert(segs_view(segments)[i].1 == segments[i].data@);
        assert(exact(s.segs()[i].1, s.records()[i]));
        assert(segments[i].data@ =~= encode_all(s.records()[i]) + tails[i]);
    }
}

/// The index holds exactly the live keys, each pointing at the bytes of the
/// record that set the key to its live value, in a segment of the store: so
/// a locator's length is what `live_len` counts.
pub proof fn lemma_index_locates(s: KvStore, k: Seq<char>)
    requires
        s.wf(),
    ensures
        s.index_view().dom() == s.live().dom(),
        s.index_view().contains_key(k) ==> {
            let l = s.index_view()[k];
            &&& has_gen(s.segs(), l.0)
            &&& l.1 + l.2 <= data_of(s.segs(), l.0).len()
            &&& data_of(s.segs(), l.0).subrange(l.1 as int, l.1 + l.2) == record_bytes(
                Ok((k, s.live()[k])),
            )
            &&& l.2 == live_len(s.live(), k)
        },
{
    if s.index_view().contains_key(k) {
        assert(locates(s.segs(), s.index_view()[k], k, s.live()[k]));
    }
}

/// No segment below the published safe point remains.
pub proof fn lemma_no_stale_segments(s: KvStore)
    requires
        s.wf(),
    ensures
        forall|i: int| 0 <= i < s.segs().len() ==> #[trigger] s.segs()[i].0 >= s.safe_point_spec(),
{
    s.lemma_gens_above_safe_point();
}

impl KvStore {
    proof fn lemma_segment_records(&self, i: int)
        requires
            self.wf(),
            0 <= i < self.segs().len(),
        ensures
            exact(self.segs()[i].1, self.records()[i]),
    {
        assert(self.segs()[i].1 == self.segments@[i].data@);
    }

    proof fn lemma_gens_increasing(&self)
        requires
            self.wf(),
        ensures
            forall|i: int, j: int|
                0 <= i < j < self.segs().len() ==> #[trigger] self.segs()[i].0
                    < #[trigger] self.segs()[j].0,
    {
        assert forall|i: int, j: int| 0 <= i < j < self.segs().len() implies #[trigger] self.segs()[i].0
            < #[trigger] self.segs()[j].0 by {
            assert(self.segs()[i].0 == self.segments@[i].gen);
            assert(self.segs()[j].0 == self.segments@[j].gen);
        }
    }

    proof fn lemma_gens_above_safe_point(&self)
        requires
            self.wf(),
        ensures
            forall|i: int| 0 <= i < self.segs().len() ==> #[trigger] self.segs()[i].0 >= self.safe_point,
    {
        assert forall|i: int| 0 <= i < self.segs().len() implies #[trigger] self.segs()[i].0
            >= self.safe_point by {
            assert(self.segs()[i].0 == self.segments@[i].gen);
            if i > 0 {
                assert(self.segments@[0].gen < self.segments@[i].gen);
            }
        }
    }
}

} // verus!
