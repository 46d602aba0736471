use vstd::prelude::*;
use crossbeam_skiplist::SkipMap;
use crate::codec::{
    decode_record, lemma_record_round_trip, parse_spec, record_len, record_len_spec, Command,
    Record, encode_spec, parse_field, TAG_PUT,
};
use crate::error::KvsError;
use vstd::bytes::lemma_auto_spec_u64_to_from_le_bytes;
use vstd::utf8::{decode_utf8_encode_utf8, encode_utf8};
use crate::index::{
    index_entries, index_get, index_insert, index_new, index_remove, index_snapshot, key_less, CommandPos,
};

verus! {

/// Once this many bytes of the log are dead, the log is compacted.
pub const COMPACTION_THRESHOLD: u64 = 1048576;

/// `a + b`, or `u64::MAX` where the sum does not fit.
pub open spec fn sat_add(a: u64, b: u64) -> u64 {
    if a + b > u64::MAX {
        u64::MAX
    } else {
        (a + b) as u64
    }
}

fn saturating_add(a: u64, b: u64) -> (r: u64)
    ensures
        r == sat_add(a, b),
{
    if a > u64::MAX - b {
        u64::MAX
    } else {
        a + b
    }
}

/// The bytes that a position designates in the segments.
pub open spec fn slice_of(segs: Map<u64, Seq<u8>>, p: CommandPos) -> Seq<u8> {
    segs[p.gen].subrange(p.position as int, p.position + p.length)
}

/// The record at `p` is the `Put` of `k` with value `v`, and takes exactly
/// the bytes of `p`.
pub open spec fn entry_holds(segs: Map<u64, Seq<u8>>, p: CommandPos, k: Seq<char>, v: Seq<char>) -> bool {
    &&& segs.contains_key(p.gen)
    &&& p.position + p.length <= segs[p.gen].len()
    &&& parse_spec(slice_of(segs, p)) == Some((Record::Put { key: k, value: v }, p.length as nat))
}

/// What reading back the bytes of one record gives: the value of a `Put`
/// that takes all of them, `InvalidCommand` for a `Remove`, else
/// `CorruptRecord`.
pub open spec fn read_value_spec(bytes: Seq<u8>) -> Result<Seq<char>, KvsError> {
    match parse_spec(bytes) {
        Some((Record::Put { value, .. }, n)) => if n == bytes.len() {
            Ok(value)
        } else {
            Err(KvsError::CorruptRecord)
        },
        Some((Record::Tombstone { .. }, n)) => if n == bytes.len() {
            Err(KvsError::InvalidCommand)
        } else {
            Err(KvsError::CorruptRecord)
        },
        None => Err(KvsError::CorruptRecord),
    }
}

/// The contents after one record is applied.
pub open spec fn apply_record(m: Map<Seq<char>, Seq<char>>, r: Record) -> Map<Seq<char>, Seq<char>> {
    match r {
        Record::Put { key, value } => m.insert(key, value),
        Record::Tombstone { key } => m.remove(key),
    }
}

/// The contents after the records of a segment are applied in order, or
/// `None` where the bytes are not a whole number of records.
pub open spec fn replay_bytes(m: Map<Seq<char>, Seq<char>>, s: Seq<u8>) -> Option<Map<Seq<char>, Seq<char>>>
    decreases s.len(),
{
    if s.len() == 0 {
        Some(m)
    } else {
        match parse_spec(s) {
            None => None,
            Some((r, n)) => if 0 < n <= s.len() {
                replay_bytes(apply_record(m, r), s.skip(n as int))
            } else {
                None
            },
        }
    }
}

/// The contents that replaying the segments of `gens` in order gives,
/// starting from an empty store.
pub open spec fn replay_log(segs: Map<u64, Seq<u8>>, gens: Seq<u64>) -> Option<Map<Seq<char>, Seq<char>>>
    decreases gens.len(),
{
    if gens.len() == 0 {
        Some(Map::empty())
    } else {
        match replay_log(segs, gens.drop_last()) {
            None => None,
            Some(m) => replay_bytes(m, segs[gens.last()]),
        }
    }
}

proof fn lemma_field_prefix(s: Seq<u8>, t: Seq<u8>)
    requires
        parse_field(s) is Some,
        parse_field(s)->Some_0.1 <= t.len(),
        t.subrange(0, parse_field(s)->Some_0.1 as int) == s.subrange(0, parse_field(s)->Some_0.1 as int),
    ensures
        parse_field(t) == parse_field(s),
{
    let n = parse_field(s)->Some_0.1 as int;
    assert(t.subrange(0, 8) =~= t.subrange(0, n).subrange(0, 8));
    assert(s.subrange(0, 8) =~= s.subrange(0, n).subrange(0, 8));
    assert(t.subrange(8, n) =~= t.subrange(0, n).subrange(8, n));
    assert(s.subrange(8, n) =~= s.subrange(0, n).subrange(8, n));
}

/// A record is read from its own bytes alone.
proof fn lemma_parse_prefix(s: Seq<u8>, t: Seq<u8>)
    requires
        parse_spec(s) is Some,
        parse_spec(s)->Some_0.1 <= t.len(),
        t.subrange(0, parse_spec(s)->Some_0.1 as int) == s.subrange(0, parse_spec(s)->Some_0.1 as int),
    ensures
        parse_spec(t) == parse_spec(s),
{
    let n = parse_spec(s)->Some_0.1 as int;
    assert(t[0] == t.subrange(0, n)[0]);
    assert(s[0] == s.subrange(0, n)[0]);
    let n1 = parse_field(s.skip(1))->Some_0.1 as int;
    assert(t.skip(1).subrange(0, n1) =~= t.subrange(0, n).subrange(1, 1 + n1));
    assert(s.skip(1).subrange(0, n1) =~= s.subrange(0, n).subrange(1, 1 + n1));
    lemma_field_prefix(s.skip(1), t.skip(1));
    if s[0] == TAG_PUT {
        let n2 = parse_field(s.skip(1 + n1))->Some_0.1 as int;
        assert(t.skip(1 + n1).subrange(0, n2) =~= t.subrange(0, n).subrange(1 + n1, 1 + n1 + n2));
        assert(s.skip(1 + n1).subrange(0, n2) =~= s.subrange(0, n).subrange(1 + n1, 1 + n1 + n2));
        lemma_field_prefix(s.skip(1 + n1), t.skip(1 + n1));
    }
}

proof fn lemma_parse_len(s: Seq<u8>)
    requires
        parse_spec(s) is Some,
    ensures
        0 < parse_spec(s)->Some_0.1 <= s.len(),
{
}

/// Replaying `s` then `e` is replaying `e` on what `s` gave.
proof fn lemma_replay_append(m: Map<Seq<char>, Seq<char>>, s: Seq<u8>, e: Seq<u8>)
    requires
        replay_bytes(m, s) is Some,
    ensures
        replay_bytes(m, s + e) == replay_bytes(replay_bytes(m, s)->Some_0, e),
    decreases s.len(),
{
    if s.len() == 0 {
        assert(s + e =~= e);
    } else {
        let (r, n) = parse_spec(s)->Some_0;
        lemma_parse_len(s);
        assert((s + e).subrange(0, n as int) =~= s.subrange(0, n as int));
        lemma_parse_prefix(s, s + e);
        assert((s + e).skip(n as int) =~= s.skip(n as int) + e);
        lemma_replay_append(apply_record(m, r), s.skip(n as int), e);
    }
}

/// Replaying the bytes of exactly one record applies that record.
proof fn lemma_replay_one(m: Map<Seq<char>, Seq<char>>, e: Seq<u8>)
    requires
        parse_spec(e) is Some,
        parse_spec(e)->Some_0.1 == e.len(),
    ensures
        replay_bytes(m, e) == Some(apply_record(m, parse_spec(e)->Some_0.0)),
{
    lemma_parse_len(e);
    let n = e.len() as int;
    assert(e.skip(n) =~= Seq::<u8>::empty());
    assert(replay_bytes(apply_record(m, parse_spec(e)->Some_0.0), e.skip(n)) == Some(apply_record(m, parse_spec(e)->Some_0.0)));
}

/// Changing a segment that is not replayed changes nothing.
proof fn lemma_replay_log_other(segs: Map<u64, Seq<u8>>, gens: Seq<u64>, g: u64, s2: Seq<u8>)
    requires
        !gens.contains(g),
    ensures
        replay_log(segs.insert(g, s2), gens) == replay_log(segs, gens),
    decreases gens.len(),
{
    if gens.len() > 0 {
        assert(!gens.drop_last().contains(g)) by {
            if gens.drop_last().contains(g) {
                let i = choose|i: int| 0 <= i < gens.drop_last().len() && gens.drop_last()[i] == g;
                assert(gens[i] == g);
            }
        }
        lemma_replay_log_other(segs, gens.drop_last(), g, s2);
        assert(gens[gens.len() - 1] != g);
    }
}

/// The index and dead-byte count after the records of segment `gen`, from
/// offset `pos` on, are replayed: a `Put` points its key at the record and
/// makes a replaced record dead; a `Remove` drops its key and makes both the
/// removed record and itself dead.
pub open spec fn index_replay(
    idx: Map<Seq<char>, CommandPos>,
    u: u64,
    gen: u64,
    s: Seq<u8>,
    pos: int,
) -> (Map<Seq<char>, CommandPos>, u64)
    decreases s.len() - pos,
{
    if pos < 0 || pos >= s.len() {
        (idx, u)
    } else {
        match parse_spec(s.skip(pos)) {
            None => (idx, u),
            Some((r, n)) => if n == 0 {
                (idx, u)
            } else {
                match r {
                    Record::Put { key, .. } => index_replay(
                        idx.insert(key, CommandPos { gen, position: pos as u64, length: n as u64 }),
                        if idx.contains_key(key) { sat_add(u, idx[key].length) } else { u },
                        gen,
                        s,
                        pos + n,
                    ),
                    Record::Tombstone { key } => index_replay(
                        idx.remove(key),
                        if idx.contains_key(key) {
                            sat_add(sat_add(u, idx[key].length), n as u64)
                        } else {
                            sat_add(u, n as u64)
                        },
                        gen,
                        s,
                        pos + n,
                    ),
                }
            },
        }
    }
}

/// The bytes of the records at `ps`, back to back, in order.
pub open spec fn gather(segs: Map<u64, Seq<u8>>, ps: Seq<CommandPos>) -> Seq<u8>
    decreases ps.len(),
{
    if ps.len() == 0 {
        Seq::empty()
    } else {
        gather(segs, ps.drop_last()) + slice_of(segs, ps.last())
    }
}

/// The sum of the record lengths of the keys `ks` in `m`.
pub open spec fn total_len(m: Map<Seq<char>, CommandPos>, ks: Seq<Seq<char>>) -> nat
    decreases ks.len(),
{
    if ks.len() == 0 {
        0
    } else {
        total_len(m, ks.drop_last()) + m[ks.last()].length as nat
    }
}

/// Some distinct keys of `m` have records whose lengths sum past `u64::MAX`.
pub open spec fn live_exceeds(m: Map<Seq<char>, CommandPos>) -> bool {
    exists|ks: Seq<Seq<char>>|
        #![trigger total_len(m, ks)]
        ks.no_duplicates() && (forall|i: int| 0 <= i < ks.len() ==> m.contains_key(ks[i]))
            && total_len(m, ks) > u64::MAX
}

/// What the caller of `compact` carries out: copy the bytes of each record
/// of `sources`, in order, back to back into the new segment `compact_gen`;
/// create the empty segment `active_gen`; then delete the segments of
/// `stale`.
pub struct CompactionPlan {
    /// The generation of the segment that receives the live records.
    pub compact_gen: u64,
    /// The generation of the new active segment.
    pub active_gen: u64,
    /// Where the live records lie now, in the order in which they are copied.
    pub sources: Vec<CommandPos>,
    /// The generations of the segments to delete once the copy is flushed.
    pub stale: Vec<u64>,
}

/// What `get` answers: `None` for a key outside the index, else what
/// reading back the bytes of its record gives.
pub open spec fn get_spec(core: LogCore, k: Seq<char>) -> Result<Option<Seq<char>>, KvsError> {
    if !core.entries().contains_key(k) {
        Ok(None)
    } else {
        match read_value_spec(slice_of(core.segments(), core.entries()[k])) {
            Ok(v) => Ok(Some(v)),
            Err(e) => Err(e),
        }
    }
}

/// What a successful `compact` makes of a store, for a plan with these
/// generations, sources and stale segments.
pub open spec fn compact_step(
    before: LogCore,
    after: LogCore,
    cg: u64,
    ag: u64,
    sources: Seq<CommandPos>,
    stale: Seq<u64>,
) -> bool {
    &&& cg == before.last_seen_spec() + 1
    &&& ag == before.last_seen_spec() + 2
    &&& after.last_seen_spec() == ag
    &&& stale == before.generations()
    &&& after.generations() == seq![cg, ag]
    &&& after.view() == before.view()
    &&& after.segments() == Map::<u64, Seq<u8>>::empty().insert(cg, gather(before.segments(), sources)).insert(
        ag,
        Seq::<u8>::empty(),
    )
    &&& after.entries().dom() == before.entries().dom()
    &&& forall|k: Seq<char>|
        #[trigger] after.entries().contains_key(k) ==> after.entries()[k].gen == cg
            && after.entries()[k].length == before.entries()[k].length
    &&& after.uncompacted_spec() == 0
    &&& after.active_len_spec() == 0
    &&& exists|ks: Seq<Seq<char>>| #[trigger] compact_layout(before, after, ks, sources)
}

/// The layout that compaction gives: the plan copies the records of all the
/// keys `ks`, in ascending key order, and each key's record now starts where
/// the records of the keys before it end.
pub open spec fn compact_layout(before: LogCore, after: LogCore, ks: Seq<Seq<char>>, sources: Seq<CommandPos>) -> bool {
    &&& sources_of(before, ks, sources)
    &&& forall|i: int, j: int| 0 <= i < j < ks.len() ==> key_less(#[trigger] ks[i], #[trigger] ks[j])
    &&& forall|i: int|
        0 <= i < ks.len() ==> (#[trigger] after.entries()[ks[i]]).position == total_len(
            before.entries(),
            ks.subrange(0, i),
        )
}

/// `sources` are the records of the distinct keys `ks`, which are all the
/// keys of the store.
pub open spec fn sources_of(core: LogCore, ks: Seq<Seq<char>>, sources: Seq<CommandPos>) -> bool {
    &&& ks.len() == sources.len()
    &&& ks.no_duplicates()
    &&& ks.to_set() == core.view().dom()
    &&& forall|i: int| 0 <= i < ks.len() ==> #[trigger] sources[i] == core.entries()[ks[i]]
}

/// What replaying segment `gen` with bytes `s`, whose records give the
/// contents `m`, makes of a store.
pub open spec fn replay_step(before: LogCore, after: LogCore, gen: u64, s: Seq<u8>, m: Map<Seq<char>, Seq<char>>) -> bool {
    &&& after.view() == m
    &&& after.generations() == before.generations().push(gen)
    &&& after.segments() == before.segments().insert(gen, s)
    &&& (after.entries(), after.uncompacted_spec()) == index_replay(
        before.entries(),
        before.uncompacted_spec(),
        gen,
        s,
        0,
    )
    &&& after.active_len_spec() == s.len()
    &&& after.last_seen_spec() == gen
}

/// What passing over segment `gen` makes of a store: only the generation
/// counts as met.
pub open spec fn skip_step(before: LogCore, after: LogCore, gen: u64) -> bool {
    &&& after.last_seen_spec() == gen
    &&& after.view() == before.view()
    &&& after.entries() == before.entries()
    &&& after.segments() == before.segments()
    &&& after.generations() == before.generations()
    &&& after.uncompacted_spec() == before.uncompacted_spec()
    &&& after.active_len_spec() == before.active_len_spec()
}

/// What a successful `commit_put` of `k` and `v` makes of a store: the key
/// maps to `v`, the record is appended to the active segment and indexed
/// there, and a replaced record counts as dead bytes.
pub open spec fn put_step(before: LogCore, after: LogCore, k: Seq<char>, v: Seq<char>) -> bool {
    let g = before.active_gen_spec();
    let rec = Record::Put { key: k, value: v };
    &&& after.view() == before.view().insert(k, v)
    &&& before.active_len_spec() == before.segments()[g].len()
    &&& after.generations() == before.generations()
    &&& after.segments() == before.segments().insert(g, before.segments()[g] + encode_spec(rec))
    &&& after.entries() == before.entries().insert(
        k,
        CommandPos { gen: g, position: before.active_len_spec(), length: record_len_spec(rec) as u64 },
    )
    &&& after.active_len_spec() == before.active_len_spec() + record_len_spec(rec)
    &&& after.uncompacted_spec() == if before.view().contains_key(k) {
        sat_add(before.uncompacted_spec(), before.entries()[k].length)
    } else {
        before.uncompacted_spec()
    }
}

/// What a successful `commit_remove` of `k` makes of a store: the key is
/// gone, a tombstone is appended to the active segment, and both the
/// removed record and the tombstone count as dead bytes.
pub open spec fn remove_step(before: LogCore, after: LogCore, k: Seq<char>) -> bool {
    let g = before.active_gen_spec();
    let rec = Record::Tombstone { key: k };
    &&& after.view() == before.view().remove(k)
    &&& before.active_len_spec() == before.segments()[g].len()
    &&& after.generations() == before.generations()
    &&& after.segments() == before.segments().insert(g, before.segments()[g] + encode_spec(rec))
    &&& after.entries() == before.entries().remove(k)
    &&& after.active_len_spec() == before.active_len_spec() + record_len_spec(rec)
    &&& after.uncompacted_spec() == sat_add(
        sat_add(before.uncompacted_spec(), before.entries()[k].length),
        record_len_spec(rec) as u64,
    )
}

proof fn lemma_total_prefix(m: Map<Seq<char>, CommandPos>, ks: Seq<Seq<char>>, n: int)
    requires
        0 <= n <= ks.len(),
    ensures
        total_len(m, ks.subrange(0, n)) <= total_len(m, ks),
    decreases ks.len(),
{
    if n < ks.len() {
        assert(ks.drop_last().subrange(0, n) =~= ks.subrange(0, n));
        lemma_total_prefix(m, ks.drop_last(), n);
    } else {
        assert(ks.subrange(0, n) =~= ks);
    }
}

/// The index after one record of segment `gen`, at `pos` and `n` bytes
/// long, is replayed.
pub open spec fn apply_position(
    idx: Map<Seq<char>, CommandPos>,
    r: Record,
    gen: u64,
    pos: int,
    n: nat,
) -> Map<Seq<char>, CommandPos> {
    match r {
        Record::Put { key, .. } => idx.insert(key, CommandPos { gen, position: pos as u64, length: n as u64 }),
        Record::Tombstone { key } => idx.remove(key),
    }
}

/// The index after the records of segment `gen`, from offset `pos` on, are
/// replayed.
pub open spec fn index_positions(idx: Map<Seq<char>, CommandPos>, gen: u64, s: Seq<u8>, pos: int) -> Map<
    Seq<char>,
    CommandPos,
>
    decreases s.len() - pos,
{
    if pos < 0 || pos >= s.len() {
        idx
    } else {
        match parse_spec(s.skip(pos)) {
            None => idx,
            Some((r, n)) => if n == 0 {
                idx
            } else {
                index_positions(apply_position(idx, r, gen, pos, n), gen, s, pos + n)
            },
        }
    }
}

/// The index that replaying the segments of `gens` in order builds.
pub open spec fn index_log(segs: Map<u64, Seq<u8>>, gens: Seq<u64>) -> Map<Seq<char>, CommandPos>
    decreases gens.len(),
{
    if gens.len() == 0 {
        Map::empty()
    } else {
        index_positions(index_log(segs, gens.drop_last()), gens.last(), segs[gens.last()], 0)
    }
}

proof fn lemma_index_replay_positions(
    idx: Map<Seq<char>, CommandPos>,
    u: u64,
    gen: u64,
    s: Seq<u8>,
    pos: int,
)
    ensures
        index_replay(idx, u, gen, s, pos).0 == index_positions(idx, gen, s, pos),
    decreases s.len() - pos,
{
    if !(pos < 0 || pos >= s.len()) {
        match parse_spec(s.skip(pos)) {
            None => {},
            Some((r, n)) => if n != 0 {
                match r {
                    Record::Put { key, .. } => lemma_index_replay_positions(
                        idx.insert(key, CommandPos { gen, position: pos as u64, length: n as u64 }),
                        if idx.contains_key(key) { sat_add(u, idx[key].length) } else { u },
                        gen,
                        s,
                        pos + n,
                    ),
                    Record::Tombstone { key } => lemma_index_replay_positions(
                        idx.remove(key),
                        if idx.contains_key(key) {
                            sat_add(sat_add(u, idx[key].length), n as u64)
                        } else {
                            sat_add(u, n as u64)
                        },
                        gen,
                        s,
                        pos + n,
                    ),
                }
            },
        }
    }
}

/// Replaying `s + e` up to the end of `s` is replaying `s`.
proof fn lemma_positions_append(
    m: Map<Seq<char>, Seq<char>>,
    idx: Map<Seq<char>, CommandPos>,
    gen: u64,
    s: Seq<u8>,
    e: Seq<u8>,
    pos: int,
)
    requires
        0 <= pos <= s.len(),
        replay_bytes(m, s.skip(pos)) is Some,
    ensures
        index_positions(idx, gen, s + e, pos) == index_positions(index_positions(idx, gen, s, pos), gen, s + e, s.len() as int),
    decreases s.len() - pos,
{
    if pos < s.len() {
        let t = s.skip(pos);
        let (r, n) = parse_spec(t)->Some_0;
        lemma_parse_len(t);
        assert((s + e).skip(pos).subrange(0, n as int) =~= t.subrange(0, n as int));
        lemma_parse_prefix(t, (s + e).skip(pos));
        assert(t.skip(n as int) =~= s.skip(pos + n));
        lemma_positions_append(apply_record(m, r), apply_position(idx, r, gen, pos, n), gen, s, e, pos + n);
    }
}

/// Replaying the last record of `s + e`, where `e` is exactly one record.
proof fn lemma_positions_one(idx: Map<Seq<char>, CommandPos>, gen: u64, s: Seq<u8>, e: Seq<u8>)
    requires
        parse_spec(e) is Some,
        parse_spec(e)->Some_0.1 == e.len(),
    ensures
        index_positions(idx, gen, s + e, s.len() as int) == apply_position(
            idx,
            parse_spec(e)->Some_0.0,
            gen,
            s.len() as int,
            e.len(),
        ),
{
    lemma_parse_len(e);
    assert((s + e).skip(s.len() as int) =~= e);
    let a = apply_position(idx, parse_spec(e)->Some_0.0, gen, s.len() as int, e.len());
    assert(index_positions(a, gen, s + e, (s.len() + e.len()) as int) == a);
}

/// Changing a segment that is not replayed leaves the replayed index as it is.
proof fn lemma_index_log_other(segs: Map<u64, Seq<u8>>, gens: Seq<u64>, g: u64, s2: Seq<u8>)
    requires
        !gens.contains(g),
    ensures
        index_log(segs.insert(g, s2), gens) == index_log(segs, gens),
    decreases gens.len(),
{
    if gens.len() > 0 {
        assert(!gens.drop_last().contains(g)) by {
            if gens.drop_last().contains(g) {
                let i = choose|i: int| 0 <= i < gens.drop_last().len() && gens.drop_last()[i] == g;
                assert(gens[i] == g);
            }
        }
        lemma_index_log_other(segs, gens.drop_last(), g, s2);
        assert(gens[gens.len() - 1] != g);
    }
}

/// The in-memory state of a log-structured store: the index, the dead-byte
/// counter and the generations of the segments on disk, with a model of
/// the bytes of each segment and of the key-value contents.
pub struct LogCore {
    index: SkipMap<String, CommandPos>,
    uncompacted: u64,
    gens: Vec<u64>,
    active_len: u64,
    seen: u64,
    segments: Ghost<Map<u64, Seq<u8>>>,
    contents: Ghost<Map<Seq<char>, Seq<char>>>,
}

impl LogCore {
    /// The key-value contents of the store.
    pub closed spec fn view(&self) -> Map<Seq<char>, Seq<char>> {
        self.contents@
    }

    /// The bytes of each segment, by generation.
    pub closed spec fn segments(&self) -> Map<u64, Seq<u8>> {
        self.segments@
    }

    /// The generations of the segments, ascending; the last one is active.
    pub closed spec fn generations(&self) -> Seq<u64> {
        self.gens@
    }

    /// Where each key's latest record lies.
    pub closed spec fn entries(&self) -> Map<Seq<char>, CommandPos> {
        index_entries(self.index)
    }

    /// The count of dead bytes in the log.
    pub closed spec fn uncompacted_spec(&self) -> u64 {
        self.uncompacted
    }

    /// The number of bytes of the active segment.
    pub closed spec fn active_len_spec(&self) -> u64 {
        self.active_len
    }

    /// The highest generation met so far, replayed or skipped; new
    /// generations come after it.
    pub closed spec fn last_seen_spec(&self) -> u64 {
        self.seen
    }

    /// The generation that appends go to.
    pub open spec fn active_gen_spec(&self) -> u64 {
        self.generations().last()
    }

    /// The internal invariant.
    pub closed spec fn wf(&self) -> bool {
        &&& forall|i: int, j: int|
            0 <= i < j < self.gens@.len() ==> self.gens@[i] < self.gens@[j]
        &&& forall|i: int| 0 <= i < self.gens@.len() ==> self.gens@[i] >= 1
        &&& forall|i: int| 0 <= i < self.gens@.len() ==> self.gens@[i] <= self.seen
        &&& forall|g: u64| #[trigger] self.segments@.contains_key(g) <==> self.gens@.contains(g)
        &&& self.gens@.len() > 0 ==> self.active_len == self.segments@[self.gens@.last()].len()
        &&& self.gens@.len() == 0 ==> self.active_len == 0
        &&& index_entries(self.index).dom() == self.contents@.dom()
        &&& forall|k: Seq<char>|
            #[trigger] index_entries(self.index).contains_key(k) ==> entry_holds(
                self.segments@,
                index_entries(self.index)[k],
                k,
                self.contents@[k],
            )
        &&& replay_log(self.segments@, self.gens@) == Some(self.contents@)
        &&& index_log(self.segments@, self.gens@) == index_entries(self.index)
    }

    /// A store with no segment and no key.
    pub fn new() -> (r: LogCore)
        ensures
            r.wf(),
            r.view().dom() == Set::<Seq<char>>::empty(),
            r.generations() == Seq::<u64>::empty(),
            r.uncompacted_spec() == 0,
            r.last_seen_spec() == 0,
    {
        let r = LogCore {
            index: index_new(),
            uncompacted: 0,
            gens: Vec::new(),
            active_len: 0,
            seen: 0,
            segments: Ghost(Map::empty()),
            contents: Ghost(Map::empty()),
        };
        proof {
            assert(r.contents@.dom() =~= Set::<Seq<char>>::empty());
            assert(r.gens@ =~= Seq::<u64>::empty());
            assert(index_entries(r.index) =~= Map::<Seq<char>, CommandPos>::empty());
        }
        r
    }

    /// The count of dead bytes in the log.
    pub fn uncompacted_size(&self) -> (r: u64)
        ensures
            r == self.uncompacted_spec(),
    {
        self.uncompacted
    }

    /// The generation that appends go to, or `None` before the first segment.
    pub fn active_gen(&self) -> (r: Option<u64>)
        ensures
            r is None <==> self.generations().len() == 0,
            r matches Some(g) ==> g == self.active_gen_spec(),
    {
        if self.gens.len() == 0 {
            None
        } else {
            Some(self.gens[self.gens.len() - 1])
        }
    }

    /// The generations of the segments, ascending.
    pub fn generation_list(&self) -> (r: Vec<u64>)
        ensures
            r@ == self.generations(),
    {
        self.gens.clone()
    }

    proof fn lemma_append(&self, e: Seq<u8>, r: Record)
        requires
            self.wf(),
            self.gens@.len() > 0,
            parse_spec(e) == Some((r, e.len())),
        ensures
            ({
                let g = self.gens@.last();
                let segs2 = self.segments@.insert(g, self.segments@[g] + e);
                &&& replay_log(segs2, self.gens@) == Some(apply_record(self.contents@, r))
                &&& index_log(segs2, self.gens@) == apply_position(
                    index_entries(self.index),
                    r,
                    g,
                    self.segments@[g].len() as int,
                    e.len(),
                )
                &&& forall|k: Seq<char>|
                    #[trigger] index_entries(self.index).contains_key(k) ==> entry_holds(
                        segs2,
                        index_entries(self.index)[k],
                        k,
                        self.contents@[k],
                    )
                &&& forall|x: u64| #[trigger] segs2.contains_key(x) <==> self.gens@.contains(x)
            }),
    {
        let g = self.gens@.last();
        let segs = self.segments@;
        let segs2 = segs.insert(g, segs[g] + e);
        let gens = self.gens@;
        assert(gens.contains(g)) by {
            assert(gens[gens.len() - 1] == g);
        }
        assert(!gens.drop_last().contains(g)) by {
            if gens.drop_last().contains(g) {
                let i = choose|i: int| 0 <= i < gens.drop_last().len() && gens.drop_last()[i] == g;
                assert(gens[i] < gens[gens.len() - 1]);
            }
        }
        lemma_replay_log_other(segs, gens.drop_last(), g, segs[g] + e);
        let m0 = replay_log(segs, gens.drop_last())->Some_0;
        lemma_replay_append(m0, segs[g], e);
        lemma_replay_one(self.contents@, e);
        lemma_index_log_other(segs, gens.drop_last(), g, segs[g] + e);
        let i0 = index_log(segs, gens.drop_last());
        assert(segs[g].skip(0) =~= segs[g]);
        lemma_positions_append(m0, i0, g, segs[g], e, 0);
        lemma_positions_one(index_positions(i0, g, segs[g], 0), g, segs[g], e);
        assert forall|k: Seq<char>|
            #[trigger] index_entries(self.index).contains_key(k) implies entry_holds(
                segs2,
                index_entries(self.index)[k],
                k,
                self.contents@[k],
            ) by {
            let p = index_entries(self.index)[k];
            assert(entry_holds(segs, p, k, self.contents@[k]));
            if p.gen == g {
                assert(slice_of(segs2, p) =~= slice_of(segs, p));
            }
        }
    }

    /// Replays the records of segment `gen`, whose bytes are `bytes`, into
    /// the index: the generations must be replayed in ascending order.
    /// `Internal` where `gen` does not follow the last generation,
    /// `CorruptRecord` where the bytes are not a whole number of records;
    /// nothing is changed then.
    pub fn replay_segment(&mut self, gen: u64, bytes: &[u8]) -> (r: Result<(), KvsError>)
        requires
            old(self).wf(),
        ensures
            final(self).wf(),
            !(gen >= 1 && gen > old(self).last_seen_spec())
                ==> r == Err::<(), KvsError>(KvsError::Internal) && *final(self) == *old(self),
            gen >= 1 && gen > old(self).last_seen_spec() ==> {
                match replay_bytes(old(self).view(), bytes@) {
                    None => r == Err::<(), KvsError>(KvsError::CorruptRecord) && *final(self) == *old(self),
                    Some(m) => r is Ok && replay_step(*old(self), *final(self), gen, bytes@, m),
                }
            },
    {
        if gen == 0 {
            return Err(KvsError::Internal);
        }
        if gen <= self.seen {
            return Err(KvsError::Internal);
        }
        let mut pos: usize = 0;
        let ghost mut m = self.contents@;
        proof {
            assert(bytes@.subrange(0, 0) =~= Seq::<u8>::empty());
        }
        while pos < bytes.len()
            invariant
                pos <= bytes@.len(),
                *self == *old(self),
                self.wf(),
                gen >= 1,
                gen > self.seen,
                replay_bytes(self.contents@, bytes@.subrange(0, pos as int)) == Some(m),
            decreases bytes@.len() - pos,
        {
            let ghost prefix = bytes@.subrange(0, pos as int);
            let ghost rest = bytes@.skip(pos as int);
            proof {
                assert(bytes@ =~= prefix + rest);
                lemma_replay_append(self.contents@, prefix, rest);
            }
            let end = match decode_record(bytes, pos) {
                None => {
                    return Err(KvsError::CorruptRecord);
                },
                Some((_, end)) => end,
            };
            proof {
                let n = (end - pos) as nat;
                let rec = bytes@.subrange(pos as int, end as int);
                lemma_parse_len(rest);
                assert(rec.subrange(0, n as int) =~= rest.subrange(0, n as int));
                lemma_parse_prefix(rest, rec);
                assert(bytes@.subrange(0, end as int) =~= prefix + rec);
                lemma_replay_append(self.contents@, prefix, rec);
                lemma_replay_one(m, rec);
                m = apply_record(m, parse_spec(rec)->Some_0.0);
            }
            pos = end;
        }
        proof {
            assert(bytes@.subrange(0, pos as int) =~= bytes@);
        }
        let ghost old_gens = self.gens@;
        let ghost old_segs = self.segments@;
        let ghost old_view = self.contents@;
        let ghost old_idx = index_entries(self.index);
        let ghost old_u = self.uncompacted;
        proof {
            assert(!old_gens.contains(gen)) by {
                if old_gens.contains(gen) {
                    let i = choose|i: int| 0 <= i < old_gens.len() && old_gens[i] == gen;
                    assert(old_gens[i] <= self.seen);
                }
            }
            lemma_replay_log_other(old_segs, old_gens, gen, bytes@);
        }
        self.gens.push(gen);
        self.seen = gen;
        self.active_len = bytes.len() as u64;
        self.segments = Ghost(old_segs.insert(gen, bytes@));
        proof {
            let gens = self.gens@;
            assert(gens.drop_last() =~= old_gens);
            assert forall|x: u64| #[trigger] self.segments@.contains_key(x) <==> gens.contains(x) by {
                if x == gen {
                    assert(gens[gens.len() - 1] == gen);
                }
                if gens.contains(x) && x != gen {
                    let i = choose|i: int| 0 <= i < gens.len() && gens[i] == x;
                    assert(old_gens[i] == x);
                }
                if old_gens.contains(x) {
                    let i = choose|i: int| 0 <= i < old_gens.len() && old_gens[i] == x;
                    assert(gens[i] == x);
                }
            }
            assert(bytes@.subrange(0, 0) =~= Seq::<u8>::empty());
            assert forall|k: Seq<char>|
                #[trigger] index_entries(self.index).contains_key(k) implies entry_holds(
                    self.segments@,
                    index_entries(self.index)[k],
                    k,
                    self.contents@[k],
                ) by {
                let p = index_entries(self.index)[k];
                assert(entry_holds(old_segs, p, k, self.contents@[k]));
                assert(old_segs.contains_key(p.gen));
            }
        }
        pos = 0;
        while pos < bytes.len()
            invariant
                pos <= bytes@.len(),
                gen >= 1,
                gen > old(self).seen,
                self.seen == gen,
                forall|i: int| 0 <= i < old_gens.len() ==> old_gens[i] <= old(self).seen,
                old_gens == old(self).gens@,
                old_view == old(self).contents@,
                self.gens@ == old_gens.push(gen),
                self.segments@ == old_segs.insert(gen, bytes@),
                self.active_len == bytes@.len(),
                forall|x: u64| #[trigger] self.segments@.contains_key(x) <==> self.gens@.contains(x),
                forall|i: int, j: int|
                    0 <= i < j < self.gens@.len() ==> self.gens@[i] < self.gens@[j],
                forall|i: int| 0 <= i < self.gens@.len() ==> self.gens@[i] >= 1,
                index_entries(self.index).dom() == self.contents@.dom(),
                forall|k: Seq<char>|
                    #[trigger] index_entries(self.index).contains_key(k) ==> entry_holds(
                        self.segments@,
                        index_entries(self.index)[k],
                        k,
                        self.contents@[k],
                    ),
                replay_log(old_segs, old_gens) == Some(old_view),
                index_log(old_segs, old_gens) == old_idx,
                replay_bytes(old_view, bytes@) is Some,
                replay_bytes(old_view, bytes@.subrange(0, pos as int)) == Some(self.contents@),
                index_replay(old_idx, old_u, gen, bytes@, 0) == index_replay(
                    index_entries(self.index),
                    self.uncompacted,
                    gen,
                    bytes@,
                    pos as int,
                ),
            decreases bytes@.len() - pos,
        {
            let ghost prefix = bytes@.subrange(0, pos as int);
            let ghost rest = bytes@.skip(pos as int);
            proof {
                assert(bytes@ =~= prefix + rest);
                lemma_replay_append(old_view, prefix, rest);
            }
            let (cmd, end) = match decode_record(bytes, pos) {
                None => {
                    return Err(KvsError::CorruptRecord);
                },
                Some(p) => p,
            };
            let ghost n = (end - pos) as nat;
            let ghost rec = bytes@.subrange(pos as int, end as int);
            proof {
                lemma_parse_len(rest);
                assert(rec.subrange(0, n as int) =~= rest.subrange(0, n as int));
                lemma_parse_prefix(rest, rec);
                assert(bytes@.subrange(0, end as int) =~= prefix + rec);
                lemma_replay_append(old_view, prefix, rec);
                lemma_replay_one(self.contents@, rec);
                assert(slice_of(self.segments@, CommandPos { gen, position: pos as u64, length: n as u64 }) =~= rec);
            }
            let len = (end - pos) as u64;
            match cmd {
                Command::Put { key, value } => {
                    if let Some(p) = index_get(&self.index, &key) {
                        self.uncompacted = saturating_add(self.uncompacted, p.length);
                    }
                    let ghost k = key@;
                    index_insert(&mut self.index, key, CommandPos { gen, position: pos as u64, length: len });
                    self.contents = Ghost(self.contents@.insert(k, value@));
                },
                Command::Remove { key } => {
                    match index_remove(&mut self.index, &key) {
                        Some(p) => {
                            self.uncompacted = saturating_add(saturating_add(self.uncompacted, p.length), len);
                        },
                        None => {
                            self.uncompacted = saturating_add(self.uncompacted, len);
                        },
                    }
                    self.contents = Ghost(self.contents@.remove(key@));
                },
            }
            proof {
                assert(index_entries(self.index).dom() =~= self.contents@.dom());
            }
            pos = end;
        }
        proof {
            assert(bytes@.subrange(0, pos as int) =~= bytes@);
            assert(self.gens@.drop_last() =~= old_gens);
            lemma_index_replay_positions(old_idx, old_u, gen, bytes@, 0);
            lemma_index_log_other(old_segs, old_gens, gen, bytes@);
            assert(index_replay(index_entries(self.index), self.uncompacted, gen, bytes@, pos as int) == (
            index_entries(self.index), self.uncompacted));
        }
        Ok(())
    }

    /// Rewrites the live records into a new segment and moves appends to a
    /// fresh one after it; the old segments become stale. The contents stay
    /// as they were. `Internal` where no two generations are left or the live
    /// records exceed what a `u64` counts (nothing is changed then).
    #[verifier::rlimit(40)]
    pub fn compact(&mut self) -> (r: Result<CompactionPlan, KvsError>)
        requires
            old(self).wf(),
        ensures
            final(self).wf(),
            r is Err ==> r == Err::<CompactionPlan, KvsError>(KvsError::Internal) && *final(self) == *old(self),
            r is Err ==> old(self).generations().len() == 0 || old(self).last_seen_spec() > u64::MAX - 2
                || live_exceeds(old(self).entries()),
            r matches Ok(plan) ==> compact_step(
                *old(self),
                *final(self),
                plan.compact_gen,
                plan.active_gen,
                plan.sources@,
                plan.stale@,
            ),
    {
        if self.gens.len() == 0 {
            return Err(KvsError::Internal);
        }
        let last = self.seen;
        if last > u64::MAX - 2 {
            return Err(KvsError::Internal);
        }
        let snapshot = index_snapshot(&self.index);
        let ghost old_idx = index_entries(self.index);
        let ghost old_segs = self.segments@;
        let ghost old_view = self.contents@;
        let ghost snap = snapshot@;
        let mut total: u64 = 0;
        let mut i: usize = 0;
        let ghost mut ks: Seq<Seq<char>> = Seq::empty();
        while i < snapshot.len()
            invariant
                i <= snap.len(),
                *self == *old(self),
                self.wf(),
                old_idx == index_entries(self.index),
                snapshot@ == snap,
                ks.len() == i,
                forall|j: int| 0 <= j < i ==> ks[j] == #[trigger] snap[j].0@,
                total == total_len(old_idx, ks),
                forall|j: int| 0 <= j < snap.len() ==> #[trigger] old_idx.contains_key(snap[j].0@)
                    && old_idx[snap[j].0@] == snap[j].1,
                forall|a: int, b: int| 0 <= a < b < snap.len() ==> #[trigger] snap[a].0@ != #[trigger] snap[b].0@,
            decreases snap.len() - i,
        {
            let len = snapshot[i].1.length;
            let ghost ks2 = ks.push(snap[i as int].0@);
            proof {
                assert(ks2.drop_last() =~= ks);
                assert(ks2.no_duplicates()) by {
                    assert forall|a: int, b: int| 0 <= a < ks2.len() && 0 <= b < ks2.len() && a != b implies ks2[a] != ks2[b] by {
                        if a < b {
                            assert(ks2[a] == snap[a].0@);
                            assert(ks2[b] == snap[b].0@);
                        } else {
                            assert(ks2[a] == snap[a].0@);
                            assert(ks2[b] == snap[b].0@);
                        }
                    }
                }
                assert(forall|j: int| 0 <= j < ks2.len() ==> old_idx.contains_key(ks2[j])) by {
                    assert forall|j: int| 0 <= j < ks2.len() implies old_idx.contains_key(ks2[j]) by {
                        assert(ks2[j] == snap[j].0@);
                    }
                }
            }
            if total > u64::MAX - len {
                proof {
                    assert(total_len(old_idx, ks2) > u64::MAX);
                    assert(live_exceeds(old_idx));
                    assert(self.wf());
                }
                return Err(KvsError::Internal);
            }
            total = total + len;
            proof {
                ks = ks2;
            }
            i = i + 1;
        }
        proof {
            assert(ks =~= snap.map_values(|e: (String, CommandPos)| e.0@));
        }
        let cg = last + 1;
        let ag = last + 2;
        let mut sources: Vec<CommandPos> = Vec::new();
        let mut new_pos: u64 = 0;
        let ghost mut offs: Seq<u64> = Seq::empty();
        let ghost mut partial: Map<Seq<char>, Seq<char>> = Map::empty();
        let ghost mut pos_map: Map<Seq<char>, CommandPos> = Map::empty();
        let ghost mut ks: Seq<Seq<char>> = Seq::empty();
        i = 0;
        proof {
            assert(replay_bytes(Map::<Seq<char>, Seq<char>>::empty(), Seq::<u8>::empty()) == Some(partial));
            assert(index_positions(Map::<Seq<char>, CommandPos>::empty(), cg, Seq::<u8>::empty(), 0) == pos_map);
            assert(pos_map.dom() =~= ks.to_set());
        }
        while i < snapshot.len()
            invariant
                i <= snap.len(),
                snapshot@ == snap,
                self.contents@ == old_view,
                self.segments@ == old_segs,
                self.gens@ == old(self).gens@,
                old_idx == old(self).entries(),
                old_view == old(self).view(),
                old_segs == old(self).segments(),
                last == old(self).seen,
                last < cg,
                cg == last + 1,
                ks.len() == i,
                forall|j: int| 0 <= j < i ==> ks[j] == #[trigger] snap[j].0@,
                new_pos == total_len(old_idx, ks),
                total == total_len(old_idx, snap.map_values(|e: (String, CommandPos)| e.0@)),
                forall|j: int| 0 <= j < snap.len() ==> #[trigger] old_idx.contains_key(snap[j].0@)
                    && old_idx[snap[j].0@] == snap[j].1,
                forall|a: int, b: int| 0 <= a < b < snap.len() ==> #[trigger] snap[a].0@ != #[trigger] snap[b].0@,
                forall|k: Seq<char>| #[trigger] old_idx.contains_key(k) ==> entry_holds(old_segs, old_idx[k], k, old_view[k]),
                old_idx.dom() == old_view.dom(),
                sources@.len() == i,
                offs.len() == i,
                forall|j: int| 0 <= j < i ==> #[trigger] sources@[j] == snap[j].1,
                gather(old_segs, sources@).len() == new_pos,
                forall|j: int| 0 <= j < i ==> #[trigger] offs[j] == total_len(old_idx, ks.subrange(0, j)),
                forall|a: int, b: int| 0 <= a < b < snap.len() ==> key_less(#[trigger] snap[a].0@, #[trigger] snap[b].0@),
                forall|j: int| 0 <= j < i ==> #[trigger] offs[j] + sources@[j].length <= new_pos
                    && gather(old_segs, sources@).subrange(offs[j] as int, offs[j] + sources@[j].length)
                        == slice_of(old_segs, sources@[j]),
                replay_bytes(Map::<Seq<char>, Seq<char>>::empty(), gather(old_segs, sources@)) == Some(partial),
                partial.dom() == ks.to_set(),
                forall|k: Seq<char>| #[trigger] partial.contains_key(k) ==> partial[k] == old_view[k],
                index_positions(Map::<Seq<char>, CommandPos>::empty(), cg, gather(old_segs, sources@), 0) == pos_map,
                pos_map.dom() == ks.to_set(),
                forall|j: int| 0 <= j < i ==> #[trigger] pos_map[snap[j].0@] == (CommandPos {
                    gen: cg,
                    position: offs[j],
                    length: snap[j].1.length,
                }),
                index_entries(self.index).dom() == old_idx.dom(),
                forall|j: int| 0 <= j < i ==> #[trigger] index_entries(self.index)[snap[j].0@] == (CommandPos {
                    gen: cg,
                    position: offs[j],
                    length: snap[j].1.length,
                }),
            decreases snap.len() - i,
        {
            let p = snapshot[i].1;
            let key = snapshot[i].0.clone();
            let ghost k = key@;
            let ghost acc = gather(old_segs, sources@);
            let ghost sl = slice_of(old_segs, p);
            proof {
                assert(old_idx.contains_key(k));
                assert(entry_holds(old_segs, p, k, old_view[k]));
                lemma_replay_append(Map::<Seq<char>, Seq<char>>::empty(), acc, sl);
                lemma_replay_one(partial, sl);
                assert(acc.skip(0) =~= acc);
                lemma_positions_append(
                    Map::<Seq<char>, Seq<char>>::empty(),
                    Map::<Seq<char>, CommandPos>::empty(),
                    cg,
                    acc,
                    sl,
                    0,
                );
                lemma_positions_one(pos_map, cg, acc, sl);
                assert(total_len(old_idx, ks.push(k)) == new_pos + p.length) by {
                    assert(ks.push(k).drop_last() =~= ks);
                }
                lemma_total_prefix(old_idx, snap.map_values(|e: (String, CommandPos)| e.0@), i as int + 1);
                assert(snap.map_values(|e: (String, CommandPos)| e.0@).subrange(0, i as int + 1) =~= ks.push(k));
            }
            let new_entry = CommandPos { gen: cg, position: new_pos, length: p.length };
            index_insert(&mut self.index, key, new_entry);
            let ghost src_before = sources@;
            sources.push(p);
            proof {
                let acc2 = gather(old_segs, sources@);
                assert(sources@.drop_last() =~= src_before);
                assert(acc2 == acc + sl);
                assert forall|j: int| 0 <= j < i + 1 implies #[trigger] offs.push(new_pos)[j] + sources@[j].length
                    <= new_pos + p.length && acc2.subrange(
                    offs.push(new_pos)[j] as int,
                    offs.push(new_pos)[j] + sources@[j].length,
                ) == slice_of(old_segs, sources@[j]) by {
                    if j < i {
                        assert(acc2.subrange(offs[j] as int, offs[j] + sources@[j].length) =~= acc.subrange(
                            offs[j] as int,
                            offs[j] + sources@[j].length,
                        ));
                    } else {
                        assert(acc2.subrange(new_pos as int, new_pos + p.length) =~= sl);
                    }
                }
                assert forall|j: int| 0 <= j < i + 1 implies #[trigger] offs.push(new_pos)[j] == total_len(
                    old_idx,
                    ks.push(k).subrange(0, j),
                ) by {
                    assert(ks.push(k).subrange(0, j) =~= ks.subrange(0, j));
                    if j == i {
                        assert(ks.subrange(0, j) =~= ks);
                    }
                }
                offs = offs.push(new_pos);
                partial = partial.insert(k, old_view[k]);
                pos_map = pos_map.insert(k, new_entry);
                assert(pos_map.dom() =~= ks.push(k).to_set()) by {
                    assert forall|x: Seq<char>| pos_map.dom().contains(x) <==> ks.push(k).to_set().contains(x) by {
                        if ks.to_set().contains(x) {
                            let j = choose|j: int| 0 <= j < ks.len() && ks[j] == x;
                            assert(ks.push(k)[j] == x);
                        }
                        if ks.push(k).to_set().contains(x) && x != k {
                            let j = choose|j: int| 0 <= j < ks.push(k).len() && ks.push(k)[j] == x;
                            assert(ks[j] == x);
                        }
                        assert(ks.push(k)[ks.len() as int] == k);
                    }
                }
                assert forall|j: int| 0 <= j < i + 1 implies #[trigger] pos_map[snap[j].0@] == (CommandPos {
                    gen: cg,
                    position: offs[j],
                    length: snap[j].1.length,
                }) by {
                    if j < i {
                        assert(snap[j].0@ != snap[i as int].0@);
                    }
                }
                assert(partial.dom() =~= ks.push(k).to_set()) by {
                    assert forall|x: Seq<char>| partial.dom().contains(x) <==> ks.push(k).to_set().contains(x) by {
                        if ks.to_set().contains(x) {
                            let j = choose|j: int| 0 <= j < ks.len() && ks[j] == x;
                            assert(ks.push(k)[j] == x);
                        }
                        if ks.push(k).to_set().contains(x) && x != k {
                            let j = choose|j: int| 0 <= j < ks.push(k).len() && ks.push(k)[j] == x;
                            assert(ks[j] == x);
                        }
                        assert(ks.push(k)[ks.len() as int] == k);
                    }
                }
                ks = ks.push(k);
                assert forall|j: int| 0 <= j < i + 1 implies #[trigger] index_entries(self.index)[snap[j].0@] == (CommandPos {
                    gen: cg,
                    position: offs[j],
                    length: snap[j].1.length,
                }) by {
                    if j < i {
                        assert(snap[j].0@ != snap[i as int].0@);
                    }
                }
                assert(index_entries(self.index).dom() =~= old_idx.dom());
            }
            new_pos = new_pos + p.length;
            i = i + 1;
        }
        let stale = self.gens.clone();
        let mut gens: Vec<u64> = Vec::new();
        gens.push(cg);
        gens.push(ag);
        self.gens = gens;
        self.seen = ag;
        self.active_len = 0;
        self.uncompacted = 0;
        let ghost acc = gather(old_segs, sources@);
        self.segments = Ghost(Map::<u64, Seq<u8>>::empty().insert(cg, acc).insert(ag, Seq::<u8>::empty()));
        proof {
            assert(partial =~= old_view) by {
                assert forall|k: Seq<char>| partial.dom().contains(k) <==> old_view.dom().contains(k) by {
                    if old_view.dom().contains(k) {
                        assert(old_idx.contains_key(k));
                        let j = choose|j: int| 0 <= j < snap.len() && #[trigger] snap[j].0@ == k;
                        assert(ks[j] == k);
                        assert(ks.to_set().contains(k));
                    }
                    if partial.dom().contains(k) {
                        assert(ks.to_set().contains(k));
                        let j = choose|j: int| 0 <= j < ks.len() && ks[j] == k;
                        assert(old_idx.contains_key(snap[j].0@));
                    }
                }
            }
            let gs = self.gens@;
            assert(gs =~= seq![cg, ag]);
            assert(gs.drop_last() =~= seq![cg]);
            assert(gs.drop_last().drop_last() =~= Seq::<u64>::empty());
            assert(replay_bytes(old_view, Seq::<u8>::empty()) == Some(old_view));
            assert(replay_log(self.segments@, gs.drop_last().drop_last()) == Some(Map::<Seq<char>, Seq<char>>::empty()));
            assert(self.segments@[cg] == acc);
            assert(replay_log(self.segments@, gs.drop_last()) == Some(old_view));
            assert(self.segments@[ag] == Seq::<u8>::empty());
            assert(replay_log(self.segments@, gs) == Some(old_view));
            assert(index_log(self.segments@, gs.drop_last().drop_last()) == Map::<Seq<char>, CommandPos>::empty());
            assert(index_log(self.segments@, gs.drop_last()) == pos_map);
            assert(index_positions(pos_map, ag, Seq::<u8>::empty(), 0) == pos_map);
            assert(index_log(self.segments@, gs) == pos_map);
            assert(pos_map =~= index_entries(self.index)) by {
                assert(pos_map.dom() =~= index_entries(self.index).dom()) by {
                    assert(partial.dom() == pos_map.dom());
                }
                assert forall|k: Seq<char>| #[trigger] pos_map.contains_key(k) implies pos_map[k] == index_entries(self.index)[k] by {
                    assert(old_idx.contains_key(k));
                    let j = choose|j: int| 0 <= j < snap.len() && #[trigger] snap[j].0@ == k;
                    assert(pos_map[snap[j].0@] == index_entries(self.index)[snap[j].0@]);
                }
            }
            assert forall|x: u64| #[trigger] self.segments@.contains_key(x) <==> gs.contains(x) by {
                if x == cg {
                    assert(gs[0] == cg);
                }
                if x == ag {
                    assert(gs[1] == ag);
                }
            }
            assert forall|k: Seq<char>| #[trigger] index_entries(self.index).contains_key(k) implies entry_holds(
                self.segments@,
                index_entries(self.index)[k],
                k,
                self.contents@[k],
            ) && index_entries(self.index)[k].gen == cg && index_entries(self.index)[k].length == old_idx[k].length by {
                assert(old_idx.contains_key(k));
                let j = choose|j: int| 0 <= j < snap.len() && #[trigger] snap[j].0@ == k;
                assert(index_entries(self.index)[snap[j].0@] == CommandPos {
                    gen: cg,
                    position: offs[j],
                    length: snap[j].1.length,
                });
                assert(sources@[j] == snap[j].1);
                assert(entry_holds(old_segs, sources@[j], k, old_view[k]));
                let np = index_entries(self.index)[k];
                assert(self.segments@[cg] == acc);
                assert(np.position == offs[j]);
                assert(np.length == sources@[j].length);
                assert(np.gen == cg);
                assert(offs[j] + sources@[j].length <= new_pos);
                assert(acc.len() == new_pos);
                assert(slice_of(self.segments@, np) == acc.subrange(offs[j] as int, offs[j] + sources@[j].length));
                assert(slice_of(self.segments@, np) == slice_of(old_segs, sources@[j]));
                assert(self.contents@[k] == old_view[k]);
                assert(entry_holds(self.segments@, np, k, old_view[k]));
            }
        }
        proof {
            assert(ks.no_duplicates()) by {
                assert forall|a: int, b: int| 0 <= a < ks.len() && 0 <= b < ks.len() && a != b implies ks[a] != ks[b] by {
                    if a < b {
                        assert(snap[a].0@ != snap[b].0@);
                    } else {
                        assert(snap[b].0@ != snap[a].0@);
                    }
                }
            }
            assert(partial.dom() == old_view.dom());
            assert(ks.to_set() == old(self).view().dom());
            assert(ks.len() == sources@.len());
            assert forall|j: int| 0 <= j < ks.len() implies #[trigger] sources@[j] == old(self).entries()[ks[j]] by {
                assert(sources@[j] == snap[j].1);
                assert(ks[j] == snap[j].0@);
                assert(old_idx.contains_key(snap[j].0@));
                assert(old_idx[snap[j].0@] == snap[j].1);
            }
            assert(sources_of(*old(self), ks, sources@));
            assert forall|a: int, b: int| 0 <= a < b < ks.len() implies key_less(#[trigger] ks[a], #[trigger] ks[b]) by {
                assert(ks[a] == snap[a].0@);
                assert(ks[b] == snap[b].0@);
            }
            assert forall|j: int| 0 <= j < ks.len() implies (#[trigger] index_entries(self.index)[ks[j]]).position
                == total_len(old_idx, ks.subrange(0, j)) by {
                assert(ks[j] == snap[j].0@);
                assert(index_entries(self.index)[snap[j].0@] == (CommandPos {
                    gen: cg,
                    position: offs[j],
                    length: snap[j].1.length,
                }));
            }
            assert(compact_layout(*old(self), *self, ks, sources@));
        }
        Ok(CompactionPlan { compact_gen: cg, active_gen: ag, sources, stale })
    }

    /// Replays segment `gen` where its bytes are a whole number of records,
    /// and otherwise passes over it (a segment torn by a crash, which the
    /// caller reports): `Ok(true)` when replayed, `Ok(false)` when passed
    /// over. `Internal` where `gen` does not follow the last generation met.
    pub fn replay_or_skip(&mut self, gen: u64, bytes: &[u8]) -> (r: Result<bool, KvsError>)
        requires
            old(self).wf(),
        ensures
            final(self).wf(),
            !(gen >= 1 && gen > old(self).last_seen_spec()) ==> r == Err::<bool, KvsError>(KvsError::Internal)
                && *final(self) == *old(self),
            gen >= 1 && gen > old(self).last_seen_spec() ==> {
                match replay_bytes(old(self).view(), bytes@) {
                    None => r == Ok::<bool, KvsError>(false) && skip_step(*old(self), *final(self), gen),
                    Some(m) => r == Ok::<bool, KvsError>(true) && replay_step(*old(self), *final(self), gen, bytes@, m),
                }
            },
    {
        match self.replay_segment(gen, bytes) {
            Ok(()) => Ok(true),
            Err(KvsError::CorruptRecord) => {
                match self.skip_segment(gen) {
                    Ok(()) => Ok(false),
                    Err(e) => Err(e),
                }
            },
            Err(e) => Err(e),
        }
    }

    /// Passes over segment `gen` without replaying it, as for a segment whose
    /// bytes are not a whole number of records: its generation counts as met,
    /// so no later generation takes its number, and nothing else changes.
    /// `Internal` where `gen` does not follow the last generation met.
    pub fn skip_segment(&mut self, gen: u64) -> (r: Result<(), KvsError>)
        requires
            old(self).wf(),
        ensures
            final(self).wf(),
            r is Ok <==> gen > old(self).last_seen_spec(),
            r is Err ==> r == Err::<(), KvsError>(KvsError::Internal) && *final(self) == *old(self),
            r is Ok ==> skip_step(*old(self), *final(self), gen),
    {
        if gen <= self.seen {
            return Err(KvsError::Internal);
        }
        self.seen = gen;
        Ok(())
    }

    /// Opens a new, empty active segment: its generation is one past the
    /// highest generation met (1 for a new store). `Internal` where no
    /// generation is left.
    pub fn start_active(&mut self) -> (r: Result<u64, KvsError>)
        requires
            old(self).wf(),
        ensures
            final(self).wf(),
            r is Err <==> old(self).last_seen_spec() == u64::MAX,
            r is Err ==> r == Err::<u64, KvsError>(KvsError::Internal) && *final(self) == *old(self),
            r matches Ok(g) ==> {
                &&& g == old(self).last_seen_spec() + 1
                &&& final(self).last_seen_spec() == g
                &&& !old(self).segments().contains_key(g)
                &&& forall|i: int| 0 <= i < old(self).generations().len() ==> old(self).generations()[i] < g
                &&& final(self).generations() == old(self).generations().push(g)
                &&& final(self).segments() == old(self).segments().insert(g, Seq::<u8>::empty())
                &&& final(self).view() == old(self).view()
                &&& final(self).entries() == old(self).entries()
                &&& final(self).uncompacted_spec() == old(self).uncompacted_spec()
                &&& final(self).active_len_spec() == 0
            },
    {
        if self.seen == u64::MAX {
            return Err(KvsError::Internal);
        }
        let g: u64 = self.seen + 1;
        let ghost old_gens = self.gens@;
        let ghost segs = self.segments@;
        proof {
            assert(!old_gens.contains(g)) by {
                if old_gens.contains(g) {
                    let i = choose|i: int| 0 <= i < old_gens.len() && old_gens[i] == g;
                    assert(old_gens[i] <= self.seen);
                }
            }
            lemma_replay_log_other(segs, old_gens, g, Seq::<u8>::empty());
            lemma_index_log_other(segs, old_gens, g, Seq::<u8>::empty());
        }
        self.gens.push(g);
        self.seen = g;
        self.active_len = 0;
        self.segments = Ghost(segs.insert(g, Seq::<u8>::empty()));
        proof {
            let gens = self.gens@;
            assert(gens.drop_last() =~= old_gens);
            assert(replay_bytes(self.contents@, Seq::<u8>::empty()) == Some(self.contents@));
            assert(index_positions(index_entries(self.index), g, Seq::<u8>::empty(), 0) == index_entries(self.index));
            assert forall|x: u64| #[trigger] self.segments@.contains_key(x) <==> gens.contains(x) by {
                if x == g {
                    assert(gens[gens.len() - 1] == g);
                }
                if gens.contains(x) && x != g {
                    let i = choose|i: int| 0 <= i < gens.len() && gens[i] == x;
                    assert(old_gens[i] == x);
                }
                if old_gens.contains(x) {
                    let i = choose|i: int| 0 <= i < old_gens.len() && old_gens[i] == x;
                    assert(gens[i] == x);
                }
            }
            assert forall|k: Seq<char>|
                #[trigger] index_entries(self.index).contains_key(k) implies entry_holds(
                    self.segments@,
                    index_entries(self.index)[k],
                    k,
                    self.contents@[k],
                ) by {
                let p = index_entries(self.index)[k];
                assert(entry_holds(segs, p, k, self.contents@[k]));
                assert(segs.contains_key(p.gen));
            }
        }
        Ok(g)
    }

    /// Indexes the `Put` of `key` and `value` after its record was appended
    /// to the active segment. Answers whether the dead bytes now exceed the
    /// compaction threshold. `Internal` where there is no active segment or
    /// the segment would grow past what a `u64` counts.
    pub fn commit_put(&mut self, key: String, value: String) -> (r: Result<bool, KvsError>)
        requires
            old(self).wf(),
        ensures
            final(self).wf(),
            r is Err <==> old(self).generations().len() == 0 || old(self).active_len_spec()
                + record_len_spec(Record::Put { key: key@, value: value@ }) > u64::MAX,
            r is Err ==> r == Err::<bool, KvsError>(KvsError::Internal) && *final(self) == *old(self),
            r is Ok ==> put_step(*old(self), *final(self), key@, value@),
            r matches Ok(b) ==> b == (final(self).uncompacted_spec() > COMPACTION_THRESHOLD),
    {
        proof {
            lemma_auto_spec_u64_to_from_le_bytes();
        }
        if self.gens.len() == 0 {
            return Err(KvsError::Internal);
        }
        let ghost k = key@;
        let ghost v = value@;
        let cmd = Command::Put { key: key.clone(), value };
        let len = match record_len(&cmd) {
            None => return Err(KvsError::Internal),
            Some(n) => n,
        };
        if self.active_len > u64::MAX - len {
            return Err(KvsError::Internal);
        }
        let g = self.gens[self.gens.len() - 1];
        let pos = CommandPos { gen: g, position: self.active_len, length: len };
        let ghost e = encode_spec(cmd@);
        proof {
            lemma_record_round_trip(cmd@, Seq::<u8>::empty());
            assert(e + Seq::<u8>::empty() =~= e);
            self.lemma_append(e, cmd@);
        }
        let ghost segs = self.segments@;
        let ghost segs2 = segs.insert(g, segs[g] + e);
        if let Some(p) = index_get(&self.index, &key) {
            self.uncompacted = saturating_add(self.uncompacted, p.length);
        }
        index_insert(&mut self.index, key, pos);
        self.active_len = self.active_len + len;
        self.segments = Ghost(segs2);
        self.contents = Ghost(self.contents@.insert(k, v));
        proof {
            assert(slice_of(segs2, pos) =~= e);
            assert(index_entries(self.index).dom() =~= self.contents@.dom());
        }
        Ok(self.uncompacted > COMPACTION_THRESHOLD)
    }

    /// Drops `key` from the index after its tombstone was appended to the
    /// active segment. `KeyNotFound` where the store does not hold the key
    /// (and nothing is to be written); `Internal` where the segment would
    /// grow past what a `u64` counts.
    pub fn commit_remove(&mut self, key: &String) -> (r: Result<(), KvsError>)
        requires
            old(self).wf(),
        ensures
            final(self).wf(),
            r == Err::<(), KvsError>(KvsError::KeyNotFound) <==> !old(self).view().contains_key(key@),
            r == Err::<(), KvsError>(KvsError::Internal) <==> old(self).view().contains_key(key@)
                && old(self).active_len_spec() + record_len_spec(Record::Tombstone { key: key@ }) > u64::MAX,
            r is Ok <==> old(self).view().contains_key(key@) && old(self).active_len_spec() + record_len_spec(
                Record::Tombstone { key: key@ },
            ) <= u64::MAX,
            r is Err ==> *final(self) == *old(self),
            r is Ok ==> remove_step(*old(self), *final(self), key@),
    {
        proof {
            lemma_auto_spec_u64_to_from_le_bytes();
        }
        let old_pos = match index_get(&self.index, key) {
            None => return Err(KvsError::KeyNotFound),
            Some(p) => p,
        };
        proof {
            assert(entry_holds(self.segments@, old_pos, key@, self.contents@[key@]));
            assert(self.gens@.len() > 0);
        }
        let cmd = Command::Remove { key: key.clone() };
        let len = match record_len(&cmd) {
            None => return Err(KvsError::Internal),
            Some(n) => n,
        };
        if self.active_len > u64::MAX - len {
            return Err(KvsError::Internal);
        }
        let ghost g = self.gens@.last();
        let ghost e = encode_spec(cmd@);
        proof {
            lemma_record_round_trip(cmd@, Seq::<u8>::empty());
            assert(e + Seq::<u8>::empty() =~= e);
            self.lemma_append(e, cmd@);
        }
        let ghost segs = self.segments@;
        let ghost segs2 = segs.insert(g, segs[g] + e);
        let _ = index_remove(&mut self.index, key);
        self.uncompacted = saturating_add(saturating_add(self.uncompacted, old_pos.length), len);
        self.active_len = self.active_len + len;
        self.segments = Ghost(segs2);
        self.contents = Ghost(self.contents@.remove(key@));
        proof {
            assert(index_entries(self.index).dom() =~= self.contents@.dom());
        }
        Ok(())
    }

    /// Where the latest record of `key` lies, if the store holds the key.
    pub fn locate(&self, key: &String) -> (r: Option<CommandPos>)
        requires
            self.wf(),
        ensures
            r is Some <==> self.view().contains_key(key@),
            r matches Some(p) ==> p == self.entries()[key@] && entry_holds(
                self.segments(),
                p,
                key@,
                self.view()[key@],
            ),
    {
        index_get(&self.index, key)
    }
    /// Appends go to the end of the active segment: its length is the
    /// active length, and the generations are ascending.
    pub proof fn lemma_active_len(&self)
        requires
            self.wf(),
        ensures
            self.generations().len() > 0 ==> self.active_len_spec() == self.segments()[self.active_gen_spec()].len(),
            self.generations().len() == 0 ==> self.active_len_spec() == 0,
            forall|i: int, j: int|
                0 <= i < j < self.generations().len() ==> self.generations()[i] < self.generations()[j],
            forall|g: u64| #[trigger] self.segments().contains_key(g) <==> self.generations().contains(g),
    {
    }

    /// The record of a key that the store holds is the `Put` of its value.
    pub proof fn lemma_entry(&self, k: Seq<char>)
        requires
            self.wf(),
            self.view().contains_key(k),
        ensures
            self.entries().contains_key(k),
            entry_holds(self.segments(), self.entries()[k], k, self.view()[k]),
    {
    }

    /// What `get` answers is what the store holds: the value of a key that it
    /// holds, and `None` for any other.
    pub proof fn lemma_get_matches_view(&self, k: Seq<char>)
        requires
            self.wf(),
        ensures
            get_spec(*self, k) == if self.view().contains_key(k) {
                Ok::<Option<Seq<char>>, KvsError>(Some(self.view()[k]))
            } else {
                Ok::<Option<Seq<char>>, KvsError>(None)
            },
    {
        if self.view().contains_key(k) {
            assert(index_entries(self.index).contains_key(k));
            assert(entry_holds(self.segments@, index_entries(self.index)[k], k, self.contents@[k]));
        }
    }
}

/// After a put of `v` under `k`, `get(k)` answers `v`.
pub proof fn law_put_then_get(before: LogCore, after: LogCore, k: Seq<char>, v: Seq<char>)
    requires
        after.wf(),
        put_step(before, after, k, v),
    ensures
        get_spec(after, k) == Ok::<Option<Seq<char>>, KvsError>(Some(v)),
{
    after.lemma_get_matches_view(k);
}

/// After a remove of `k`, `get(k)` answers `None`.
pub proof fn law_remove_then_get(before: LogCore, after: LogCore, k: Seq<char>)
    requires
        after.wf(),
        remove_step(before, after, k),
    ensures
        get_spec(after, k) == Ok::<Option<Seq<char>>, KvsError>(None),
{
    after.lemma_get_matches_view(k);
}

/// Of two puts under one key, the later one wins.
pub proof fn law_overwrite(s0: LogCore, s1: LogCore, s2: LogCore, k: Seq<char>, v1: Seq<char>, v2: Seq<char>)
    requires
        s2.wf(),
        put_step(s0, s1, k, v1),
        put_step(s1, s2, k, v2),
    ensures
        get_spec(s2, k) == Ok::<Option<Seq<char>>, KvsError>(Some(v2)),
{
    s2.lemma_get_matches_view(k);
}

/// Replaying the segments in generation order, from an empty store, gives
/// back exactly the contents and the index.
pub proof fn law_replay_restores(core: LogCore)
    requires
        core.wf(),
    ensures
        replay_log(core.segments(), core.generations()) == Some(core.view()),
        index_log(core.segments(), core.generations()) == core.entries(),
{
}

/// A store reopened over the same segments, replayed in the same order,
/// holds the same contents and the same index.
pub proof fn law_reopen_same_state(before: LogCore, reopened: LogCore)
    requires
        before.wf(),
        reopened.wf(),
        reopened.segments() == before.segments(),
        reopened.generations() == before.generations(),
    ensures
        reopened.view() == before.view(),
        reopened.entries() == before.entries(),
{
    law_replay_restores(before);
    law_replay_restores(reopened);
}

/// Compaction keeps the value of every key: `get` answers after it as
/// before it.
pub proof fn law_compaction_keeps_values(
    before: LogCore,
    after: LogCore,
    cg: u64,
    ag: u64,
    sources: Seq<CommandPos>,
    stale: Seq<u64>,
    k: Seq<char>,
)
    requires
        before.wf(),
        after.wf(),
        compact_step(before, after, cg, ag, sources, stale),
    ensures
        get_spec(after, k) == get_spec(before, k),
{
    before.lemma_get_matches_view(k);
    after.lemma_get_matches_view(k);
}


/// The value that the bytes of one record hold: `CorruptRecord` where they
/// are not exactly one record, `InvalidCommand` where it is a `Remove`.
pub fn read_value(bytes: &[u8]) -> (r: Result<String, KvsError>)
    ensures
        match read_value_spec(bytes@) {
            Ok(v) => r matches Ok(s) && s@ == v,
            Err(e) => r == Err::<String, KvsError>(e),
        },
{
    assert(bytes@.skip(0) =~= bytes@);
    match decode_record(bytes, 0) {
        None => Err(KvsError::CorruptRecord),
        Some((Command::Put { value, .. }, end)) => {
            if end == bytes.len() {
                Ok(value)
            } else {
                Err(KvsError::CorruptRecord)
            }
        },
        Some((Command::Remove { .. }, end)) => {
            if end == bytes.len() {
                Err(KvsError::InvalidCommand)
            } else {
                Err(KvsError::CorruptRecord)
            }
        },
    }
}

/// The bytes that one record per key of `ks` takes: a tag, two lengths and
/// the UTF-8 bytes of the key and of its value.
pub open spec fn stored_size(view: Map<Seq<char>, Seq<char>>, ks: Seq<Seq<char>>) -> nat
    decreases ks.len(),
{
    if ks.len() == 0 {
        0
    } else {
        stored_size(view, ks.drop_last()) + 17 + encode_utf8(ks.last()).len() + encode_utf8(
            view[ks.last()],
        ).len()
    }
}

proof fn lemma_put_len(s: Seq<u8>, k: Seq<char>, v: Seq<char>, n: nat)
    requires
        parse_spec(s) == Some((Record::Put { key: k, value: v }, n)),
    ensures
        n == 17 + encode_utf8(k).len() + encode_utf8(v).len(),
{
    let f1 = parse_field(s.skip(1))->Some_0.1;
    let kb = s.skip(1).subrange(8, f1 as int);
    decode_utf8_encode_utf8(kb);
    let f2 = parse_field(s.skip(1 + f1 as int))->Some_0.1;
    let vb = s.skip(1 + f1 as int).subrange(8, f2 as int);
    decode_utf8_encode_utf8(vb);
}

proof fn lemma_gather_len(segs: Map<u64, Seq<u8>>, ps: Seq<CommandPos>, view: Map<Seq<char>, Seq<char>>, ks: Seq<Seq<char>>)
    requires
        ks.len() == ps.len(),
        forall|i: int| 0 <= i < ps.len() ==> #[trigger] ps[i].position + ps[i].length <= segs[ps[i].gen].len()
            && ps[i].length == 17 + encode_utf8(ks[i]).len() + encode_utf8(view[ks[i]]).len(),
    ensures
        gather(segs, ps).len() == stored_size(view, ks),
    decreases ps.len(),
{
    if ps.len() > 0 {
        let n = ps.len() - 1;
        assert forall|i: int| 0 <= i < ps.drop_last().len() implies #[trigger] ps.drop_last()[i].position
            + ps.drop_last()[i].length <= segs[ps.drop_last()[i].gen].len() && ps.drop_last()[i].length == 17
            + encode_utf8(ks.drop_last()[i]).len() + encode_utf8(view[ks.drop_last()[i]]).len() by {
            assert(ps.drop_last()[i] == ps[i]);
            assert(ks.drop_last()[i] == ks[i]);
        }
        lemma_gather_len(segs, ps.drop_last(), view, ks.drop_last());
        assert(ps[n].position + ps[n].length <= segs[ps[n].gen].len());
    }
}

/// After a compaction the log holds one record per live key and nothing
/// else: its size is 17 bytes per key plus the UTF-8 bytes of each key and
/// value, so at most 18 times the bytes of keys and values where no key is
/// empty.
pub proof fn law_compacted_size(
    before: LogCore,
    after: LogCore,
    cg: u64,
    ag: u64,
    sources: Seq<CommandPos>,
    stale: Seq<u64>,
)
    requires
        before.wf(),
        compact_step(before, after, cg, ag, sources, stale),
    ensures
        exists|ks: Seq<Seq<char>>|
            ks.no_duplicates() && ks.to_set() == before.view().dom() && after.segments()[cg].len()
                + after.segments()[ag].len() == #[trigger] stored_size(before.view(), ks),
{
    let ks = choose|ks: Seq<Seq<char>>| #[trigger] compact_layout(before, after, ks, sources);
    assert forall|i: int| 0 <= i < sources.len() implies #[trigger] sources[i].position + sources[i].length
        <= before.segments()[sources[i].gen].len() && sources[i].length == 17 + encode_utf8(ks[i]).len()
        + encode_utf8(before.view()[ks[i]]).len() by {
        assert(ks.to_set().contains(ks[i]));
        before.lemma_entry(ks[i]);
        lemma_put_len(slice_of(before.segments(), sources[i]), ks[i], before.view()[ks[i]], sources[i].length as nat);
    }
    lemma_gather_len(before.segments(), sources, before.view(), ks);
    assert(cg != ag);
}

} // verus!
