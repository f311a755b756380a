use vstd::prelude::*;
use vstd::slice::slice_subrange;
use vstd::slice::slice_to_vec;
use vstd::string::StringExecFns;
use vstd::string::StrSliceExecFns;

use crate::codec::cmd_fits;
use crate::codec::decode_command;
use crate::codec::encode_command;
use crate::codec::lemma_decode_encode;
use crate::codec::lemma_decode_sound;
use crate::codec::spec_decode;
use crate::codec::spec_encode;
use crate::codec::str_fits;
use crate::codec::Command;
use crate::codec::CommandV;
use crate::error::InternalError;

verus! {

/// Reclaimable bytes above which a store compacts itself.
pub const COMPACTION_THRESHOLD: u64 = 1024 * 1024;

/// The exact byte span of one serialized command: the generation that holds
/// it, the offset of its first byte, and its length in bytes.
#[derive(Clone, Copy, Debug, PartialEq, Eq, Structural)]
pub struct CommandPos {
    pub gen: u64,
    pub pos: u64,
    pub len: u64,
}

impl From<(u64, core::ops::Range<u64>)> for CommandPos {
    /// The span that one `(generation, byte range)` pair describes; an empty
    /// span when the range runs backwards.
    fn from(src: (u64, core::ops::Range<u64>)) -> (r: CommandPos) {
        let (gen, range) = src;
        CommandPos {
            gen,
            pos: range.start,
            len: if range.end >= range.start {
                range.end - range.start
            } else {
                0
            },
        }
    }
}

impl vstd::std_specs::convert::FromSpecImpl<(u64, core::ops::Range<u64>)> for CommandPos {
    open spec fn obeys_from_spec() -> bool {
        true
    }

    open spec fn from_spec(src: (u64, core::ops::Range<u64>)) -> CommandPos {
        CommandPos {
            gen: src.0,
            pos: src.1.start,
            len: if src.1.end >= src.1.start {
                (src.1.end - src.1.start) as u64
            } else {
                0
            },
        }
    }
}

/// One log generation: its number and the full bytes of its file.
#[verifier::ext_equal]
pub struct Segment {
    pub gen: u64,
    pub data: Vec<u8>,
}

/// The finite map that an entry list stands for: later entries win.
pub open spec fn map_of(s: Seq<(String, CommandPos)>) -> Map<Seq<char>, CommandPos>
    decreases s.len(),
{
    if s.len() == 0 {
        Map::empty()
    } else {
        map_of(s.drop_last()).insert(s.last().0@, s.last().1)
    }
}

/// The bytes still needed to answer a get: the summed record lengths of an
/// entry list.
pub open spec fn live_len(s: Seq<(String, CommandPos)>) -> nat
    decreases s.len(),
{
    if s.len() == 0 {
        0
    } else {
        (live_len(s.drop_last()) + s.last().1.len) as nat
    }
}

/// No two entries of the list carry the same key.
pub open spec fn keys_distinct(s: Seq<(String, CommandPos)>) -> bool {
    forall|i: int, j: int| 0 <= i < j < s.len() ==> s[i].0@ != s[j].0@
}

proof fn lemma_map_of_contains(s: Seq<(String, CommandPos)>, k: Seq<char>)
    ensures
        map_of(s).contains_key(k) <==> exists|i: int| 0 <= i < s.len() && #[trigger] s[i].0@ == k,
    decreases s.len(),
{
    if s.len() > 0 {
        lemma_map_of_contains(s.drop_last(), k);
        if s.last().0@ == k {
            assert(s[s.len() - 1].0@ == k);
        } else {
            if map_of(s).contains_key(k) {
                let i = choose|i: int| 0 <= i < s.drop_last().len() && #[trigger] s.drop_last()[i].0@
                    == k;
                assert(s[i].0@ == k);
            }
            if exists|i: int| 0 <= i < s.len() && #[trigger] s[i].0@ == k {
                let i = choose|i: int| 0 <= i < s.len() && #[trigger] s[i].0@ == k;
                assert(s.drop_last()[i].0@ == k);
            }
        }
    }
}

proof fn lemma_map_of_index(s: Seq<(String, CommandPos)>, i: int)
    requires
        keys_distinct(s),
        0 <= i < s.len(),
    ensures
        map_of(s).contains_key(s[i].0@),
        map_of(s)[s[i].0@] == s[i].1,
    decreases s.len(),
{
    if i < s.len() - 1 {
        lemma_map_of_index(s.drop_last(), i);
        assert(s.drop_last()[i] == s[i]);
        assert(s[i].0@ != s.last().0@);
    }
}

proof fn lemma_map_of_remove(s: Seq<(String, CommandPos)>, i: int)
    requires
        keys_distinct(s),
        0 <= i < s.len(),
    ensures
        map_of(s.remove(i)) == map_of(s).remove(s[i].0@),
        live_len(s.remove(i)) + s[i].1.len == live_len(s),
        keys_distinct(s.remove(i)),
    decreases s.len(),
{
    let k = s[i].0@;
    assert forall|a: int, b: int| 0 <= a < b < s.remove(i).len() implies s.remove(i)[a].0@ != s.remove(
        i,
    )[b].0@ by {
        assert(s.remove(i)[a] == (if a < i {
            s[a]
        } else {
            s[a + 1]
        }));
        assert(s.remove(i)[b] == (if b < i {
            s[b]
        } else {
            s[b + 1]
        }));
    }
    if i == s.len() - 1 {
        assert(s.remove(i) =~= s.drop_last());
        lemma_map_of_contains(s.drop_last(), k);
        assert forall|j: int| 0 <= j < s.drop_last().len() implies s.drop_last()[j].0@ != k by {
            assert(s[j].0@ != s[i].0@);
        }
        assert(!map_of(s.drop_last()).contains_key(k));
        assert(map_of(s).remove(k) =~= map_of(s.drop_last()));
    } else {
        lemma_map_of_remove(s.drop_last(), i);
        assert(s.remove(i).drop_last() =~= s.drop_last().remove(i));
        assert(s.remove(i).last() == s.last());
        assert(s.last().0@ != k);
        assert(map_of(s.drop_last()).remove(k).insert(s.last().0@, s.last().1) =~= map_of(
            s.drop_last(),
        ).insert(s.last().0@, s.last().1).remove(k));
    }
}

/// The in-memory index: each live key with the span of its latest `Put`.
pub struct Index {
    pub entries: Vec<(String, CommandPos)>,
}

impl View for Index {
    type V = Map<Seq<char>, CommandPos>;

    open spec fn view(&self) -> Map<Seq<char>, CommandPos> {
        map_of(self.entries@)
    }
}

impl Index {
    /// Each key occurs at most once.
    pub open spec fn wf(self) -> bool {
        keys_distinct(self.entries@)
    }

    /// The summed record lengths of the entries.
    pub open spec fn live(self) -> nat {
        live_len(self.entries@)
    }

    /// The empty index.
    pub fn new() -> (r: Index)
        ensures
            r.wf(),
            r@ == Map::<Seq<char>, CommandPos>::empty(),
            r.live() == 0,
            r.entries@.len() == 0,
    {
        Index { entries: Vec::new() }
    }

    fn find(&self, key: &String) -> (r: Option<usize>)
        ensures
            match r {
                Some(i) => i < self.entries@.len() && self.entries@[i as int].0@ == key@,
                None => forall|j: int| 0 <= j < self.entries@.len() ==> self.entries@[j].0@ != key@,
            },
    {
        let mut i: usize = 0;
        while i < self.entries.len()
            invariant
                i <= self.entries@.len(),
                forall|j: int| 0 <= j < i ==> self.entries@[j].0@ != key@,
            decreases self.entries@.len() - i,
        {
            if self.entries[i].0 == *key {
                return Some(i);
            }
            i += 1;
        }
        None
    }

    /// Look a key up; report the span of its latest `Put` if it is live.
    pub fn get(&self, key: &String) -> (r: Option<CommandPos>)
        requires
            self.wf(),
        ensures
            match r {
                Some(cp) => self@.contains_key(key@) && cp == self@[key@],
                None => !self@.contains_key(key@),
            },
    {
        proof {
            lemma_map_of_contains(self.entries@, key@);
        }
        match self.find(key) {
            Some(i) => {
                proof {
                    lemma_map_of_index(self.entries@, i as int);
                }
                Some(self.entries[i].1)
            },
            None => None,
        }
    }

    /// Map a key to a new span; report the span it had before, if any.
    pub fn insert(&mut self, key: String, cp: CommandPos) -> (r: Option<CommandPos>)
        requires
            old(self).wf(),
        ensures
            final(self).wf(),
            final(self)@ == old(self)@.insert(key@, cp),
            match r {
                Some(oldcp) => old(self)@.contains_key(key@) && oldcp == old(self)@[key@] && old(
                    self,
                ).live() >= oldcp.len && final(self).live() + oldcp.len == old(self).live()
                    + cp.len,
                None => !old(self)@.contains_key(key@) && final(self).live() == old(self).live()
                    + cp.len,
            },
    {
        let r = self.remove(&key);
        let ghost prefix = self.entries@;
        self.entries.push((key, cp));
        proof {
            assert(self.entries@.drop_last() =~= prefix);
            lemma_map_of_contains(prefix, self.entries@.last().0@);
            assert(map_of(prefix).insert(self.entries@.last().0@, cp) =~= old(self)@.insert(
                self.entries@.last().0@,
                cp,
            ));
        }
        r
    }

    /// Drop a key; report the span it had, or nothing if it was absent.
    pub fn remove(&mut self, key: &String) -> (r: Option<CommandPos>)
        requires
            old(self).wf(),
        ensures
            final(self).wf(),
            final(self)@ == old(self)@.remove(key@),
            !final(self)@.contains_key(key@),
            match r {
                Some(cp) => old(self)@.contains_key(key@) && cp == old(self)@[key@] && old(
                    self,
                ).live() >= cp.len && final(self).live() + cp.len == old(self).live(),
                None => !old(self)@.contains_key(key@) && *final(self) == *old(self),
            },
    {
        proof {
            lemma_map_of_contains(self.entries@, key@);
        }
        match self.find(key) {
            Some(i) => {
                proof {
                    lemma_map_of_index(self.entries@, i as int);
                    lemma_map_of_remove(self.entries@, i as int);
                }
                let p = self.entries.remove(i);
                proof {
                    lemma_map_of_contains(self.entries@, key@);
                    assert forall|j: int| 0 <= j < self.entries@.len() implies self.entries@[j].0@
                        != key@ by {
                        if j < i {
                            assert(self.entries@[j] == old(self).entries@[j]);
                            assert(old(self).entries@[j].0@ != old(self).entries@[i as int].0@);
                        } else {
                            assert(self.entries@[j] == old(self).entries@[j + 1]);
                            assert(old(self).entries@[i as int].0@ != old(self).entries@[j + 1].0@);
                        }
                    }
                }
                Some(p.1)
            },
            None => {
                proof {
                    assert(map_of(self.entries@).remove(key@) =~= map_of(self.entries@));
                }
                None
            },
        }
    }
}

/// What one command does to the live key-value map.
pub open spec fn apply_command(m: Map<Seq<char>, Seq<char>>, c: CommandV) -> Map<
    Seq<char>,
    Seq<char>,
> {
    match c {
        CommandV::Put { key, value } => m.insert(key, value),
        CommandV::Remove { key } => m.remove(key),
    }
}

/// Replay the records of one byte run, front to back, onto a starting map;
/// nothing if the run is truncated or malformed.
pub open spec fn replay_bytes(m: Map<Seq<char>, Seq<char>>, tail: Seq<u8>) -> Option<
    Map<Seq<char>, Seq<char>>,
>
    decreases tail.len(),
{
    if tail.len() == 0 {
        Option::Some(m)
    } else {
        match spec_decode(tail) {
            Option::Some((c, n)) => if 0 < n <= tail.len() {
                replay_bytes(apply_command(m, c), tail.skip(n))
            } else {
                Option::None
            },
            Option::None => Option::None,
        }
    }
}

/// Replay a run of segments in order onto a starting map.
pub open spec fn replay_segments(m: Map<Seq<char>, Seq<char>>, segs: Seq<Segment>) -> Option<
    Map<Seq<char>, Seq<char>>,
>
    decreases segs.len(),
{
    if segs.len() == 0 {
        Option::Some(m)
    } else {
        match replay_bytes(m, segs[0].data@) {
            Option::Some(m2) => replay_segments(m2, segs.skip(1)),
            Option::None => Option::None,
        }
    }
}

/// The live key-value map that a run of segments holds, rebuilt from the
/// bytes alone.
pub open spec fn replay_model(segs: Seq<Segment>) -> Option<Map<Seq<char>, Seq<char>>> {
    replay_segments(Map::empty(), segs)
}

/// The summed byte length of a run of segments.
pub open spec fn total_len(segs: Seq<Segment>) -> nat
    decreases segs.len(),
{
    if segs.len() == 0 {
        0
    } else {
        (total_len(segs.drop_last()) + segs.last().data@.len()) as nat
    }
}

/// Generation numbers strictly ascend along the run.
pub open spec fn gens_increasing(segs: Seq<Segment>) -> bool {
    forall|i: int, j: int| 0 <= i < j < segs.len() ==> segs[i].gen < segs[j].gen
}

proof fn lemma_total_len_take_succ(segs: Seq<Segment>, i: int)
    requires
        0 <= i < segs.len(),
    ensures
        total_len(segs.take(i + 1)) == total_len(segs.take(i)) + segs[i].data@.len(),
{
    assert(segs.take(i + 1).drop_last() =~= segs.take(i));
    assert(segs.take(i + 1).last() == segs[i]);
}

proof fn lemma_total_len_take_le(segs: Seq<Segment>, i: int)
    requires
        0 <= i <= segs.len(),
    ensures
        total_len(segs.take(i)) <= total_len(segs),
    decreases segs.len() - i,
{
    if i == segs.len() {
        assert(segs.take(i) =~= segs);
    } else {
        lemma_total_len_take_succ(segs, i);
        lemma_total_len_take_le(segs, i + 1);
    }
}

/// Appending one whole record to a run applies its command to the replay.
proof fn lemma_replay_bytes_snoc(m: Map<Seq<char>, Seq<char>>, d: Seq<u8>, c: CommandV)
    requires
        replay_bytes(m, d) is Some,
        cmd_fits(c),
    ensures
        replay_bytes(m, d + spec_encode(c)) == Option::Some(
            apply_command(replay_bytes(m, d).unwrap(), c),
        ),
    decreases d.len(),
{
    reveal_with_fuel(replay_bytes, 3);
    if d.len() == 0 {
        assert(d + spec_encode(c) =~= spec_encode(c) + Seq::<u8>::empty());
        lemma_decode_encode(c, Seq::<u8>::empty());
        let n = spec_encode(c).len() as int;
        assert(spec_encode(c).len() >= 1);
        assert(spec_decode(d + spec_encode(c)) == Option::Some((c, n)));
        assert((d + spec_encode(c)).skip(n) =~= Seq::<u8>::empty());
        assert(replay_bytes(apply_command(m, c), (d + spec_encode(c)).skip(n)) == Option::Some(
            apply_command(m, c),
        ));
    } else {
        let (c0, n0) = spec_decode(d).unwrap();
        assert(0 < n0 <= d.len());
        assert(replay_bytes(m, d) == replay_bytes(apply_command(m, c0), d.skip(n0)));
        crate::codec::lemma_decode_prefix(d, spec_encode(c));
        assert((d + spec_encode(c)).skip(n0) =~= d.skip(n0) + spec_encode(c));
        lemma_replay_bytes_snoc(apply_command(m, c0), d.skip(n0), c);
        assert(replay_bytes(m, d + spec_encode(c)) == replay_bytes(
            apply_command(m, c0),
            (d + spec_encode(c)).skip(n0),
        ));
    }
}

/// Extending the last segment of a run by one record applies its command to
/// the run's replay.
proof fn lemma_replay_segments_extend_last(
    m: Map<Seq<char>, Seq<char>>,
    segs: Seq<Segment>,
    segs2: Seq<Segment>,
    c: CommandV,
)
    requires
        segs.len() >= 1,
        replay_segments(m, segs) is Some,
        cmd_fits(c),
        segs2.len() == segs.len(),
        forall|i: int| 0 <= i < segs.len() - 1 ==> segs2[i] == segs[i],
        segs2.last().data@ == segs.last().data@ + spec_encode(c),
    ensures
        replay_segments(m, segs2) == Option::Some(
            apply_command(replay_segments(m, segs).unwrap(), c),
        ),
    decreases segs.len(),
{
    reveal_with_fuel(replay_segments, 3);
    if segs.len() == 1 {
        assert(segs.skip(1) =~= Seq::<Segment>::empty());
        assert(segs2.skip(1) =~= Seq::<Segment>::empty());
        assert(segs2[0] == segs2.last());
        assert(segs[0] == segs.last());
        assert(replay_bytes(m, segs[0].data@) is Some);
        lemma_replay_bytes_snoc(m, segs[0].data@, c);
        assert(replay_segments(m, segs) == replay_bytes(m, segs[0].data@));
        assert(replay_segments(m, segs2) == replay_bytes(m, segs2[0].data@));
    } else {
        assert(segs2[0] == segs[0]);
        let m2 = replay_bytes(m, segs[0].data@).unwrap();
        assert(segs.skip(1).len() == segs.len() - 1);
        assert(segs.skip(1).last() == segs.last());
        assert(segs2.skip(1).last() == segs2.last());
        assert forall|i: int| 0 <= i < segs.skip(1).len() - 1 implies segs2.skip(1)[i] == segs.skip(
            1,
        )[i] by {
            assert(segs2[i + 1] == segs[i + 1]);
        }
        lemma_replay_segments_extend_last(m2, segs.skip(1), segs2.skip(1), c);
        assert(replay_segments(m, segs) == replay_segments(m2, segs.skip(1)));
        assert(replay_segments(m, segs2) == replay_segments(m2, segs2.skip(1)));
    }
}

/// Replaying a run and one more segment is replaying the run, then the
/// segment's bytes.
proof fn lemma_replay_segments_snoc(m0: Map<Seq<char>, Seq<char>>, segs: Seq<Segment>, s: Segment)
    requires
        replay_segments(m0, segs) is Some,
    ensures
        replay_segments(m0, segs.push(s)) == replay_bytes(
            replay_segments(m0, segs).unwrap(),
            s.data@,
        ),
    decreases segs.len(),
{
    reveal_with_fuel(replay_segments, 3);
    if segs.len() == 0 {
        assert(segs.push(s)[0] == s);
        assert(segs.push(s).skip(1) =~= Seq::<Segment>::empty());
        if replay_bytes(m0, s.data@) is Some {
            assert(replay_segments(m0, segs.push(s)) == replay_segments(
                replay_bytes(m0, s.data@).unwrap(),
                segs.push(s).skip(1),
            ));
        }
    } else {
        assert(segs.push(s)[0] == segs[0]);
        assert(segs.push(s).skip(1) =~= segs.skip(1).push(s));
        let m2 = replay_bytes(m0, segs[0].data@).unwrap();
        lemma_replay_segments_snoc(m2, segs.skip(1), s);
        assert(replay_segments(m0, segs) == replay_segments(m2, segs.skip(1)));
        assert(replay_segments(m0, segs.push(s)) == replay_segments(m2, segs.skip(1).push(s)));
    }
}

/// Replaying a run is replaying its first `j` segments, then the rest.
proof fn lemma_replay_segments_split(m0: Map<Seq<char>, Seq<char>>, segs: Seq<Segment>, j: int)
    requires
        0 <= j <= segs.len(),
    ensures
        replay_segments(m0, segs) == (match replay_segments(m0, segs.take(j)) {
            Option::Some(m1) => replay_segments(m1, segs.skip(j)),
            Option::None => Option::None,
        }),
    decreases j,
{
    reveal_with_fuel(replay_segments, 3);
    if j == 0 {
        assert(segs.take(0) =~= Seq::<Segment>::empty());
        assert(segs.skip(0) =~= segs);
    } else {
        assert(segs.take(j)[0] == segs[0]);
        match replay_bytes(m0, segs[0].data@) {
            Option::Some(m2) => {
                lemma_replay_segments_split(m2, segs.skip(1), j - 1);
                assert(segs.skip(1).take(j - 1) =~= segs.take(j).skip(1));
                assert(segs.skip(1).skip(j - 1) =~= segs.skip(j));
                assert(replay_segments(m0, segs) == replay_segments(m2, segs.skip(1)));
                assert(replay_segments(m0, segs.take(j)) == replay_segments(
                    m2,
                    segs.take(j).skip(1),
                ));
            },
            Option::None => {
                assert(replay_segments(m0, segs) is None);
                assert(replay_segments(m0, segs.take(j)) is None);
            },
        }
    }
}

/// A trailing empty segment leaves a run's replay unchanged.
proof fn lemma_replay_segments_push_empty(
    m: Map<Seq<char>, Seq<char>>,
    segs: Seq<Segment>,
    s: Segment,
)
    requires
        replay_segments(m, segs) is Some,
        s.data@.len() == 0,
    ensures
        replay_segments(m, segs.push(s)) == replay_segments(m, segs),
    decreases segs.len(),
{
    reveal_with_fuel(replay_segments, 3);
    reveal_with_fuel(replay_bytes, 2);
    if segs.len() == 0 {
        assert(segs.push(s)[0] == s);
        assert(replay_bytes(m, s.data@) == Option::Some(m));
        assert(segs.push(s).skip(1) =~= Seq::<Segment>::empty());
        assert(replay_segments(m, segs.push(s)) == replay_segments(m, segs.push(s).skip(1)));
    } else {
        assert(segs.push(s)[0] == segs[0]);
        assert(segs.push(s).skip(1) =~= segs.skip(1).push(s));
        let m2 = replay_bytes(m, segs[0].data@).unwrap();
        lemma_replay_segments_push_empty(m2, segs.skip(1), s);
        assert(replay_segments(m, segs) == replay_segments(m2, segs.skip(1)));
        assert(replay_segments(m, segs.push(s)) == replay_segments(m2, segs.push(s).skip(1)));
    }
}

/// Whether the span `cp` points at the canonical `Put` record of `(k, v)`
/// inside one of the segments of `segs`.
pub open spec fn location_ok(
    segs: Seq<Segment>,
    cp: CommandPos,
    k: Seq<char>,
    v: Seq<char>,
) -> bool {
    exists|i: int|
        #![trigger segs[i]]
        {
            &&& 0 <= i < segs.len()
            &&& segs[i].gen == cp.gen
            &&& cp.pos + cp.len <= segs[i].data@.len()
            &&& segs[i].data@.subrange(cp.pos as int, cp.pos + cp.len) == spec_encode(
                CommandV::Put { key: k, value: v },
            )
        }
}

/// Whether an index map agrees with a live map `m`: same keys, and every
/// entry points at the canonical `Put` record of its key inside `segs`.
pub open spec fn index_consistent(
    imap: Map<Seq<char>, CommandPos>,
    segs: Seq<Segment>,
    m: Map<Seq<char>, Seq<char>>,
) -> bool {
    &&& imap.dom() == m.dom()
    &&& forall|k: Seq<char>| #[trigger]
        m.contains_key(k) ==> str_fits(k) && str_fits(m[k]) && location_ok(segs, imap[k], k, m[k])
}

/// The store engine: every segment's bytes as the caller's directory holds
/// them, the index over them, the active generation, and the
/// reclaimable-byte counter.
pub struct BawiKv {
    segments: Vec<Segment>,
    index: Index,
    current_gen: u64,
    uncompacted: u64,
    model: Ghost<Map<Seq<char>, Seq<char>>>,
}

impl View for BawiKv {
    type V = Map<Seq<char>, Seq<char>>;

    closed spec fn view(&self) -> Map<Seq<char>, Seq<char>> {
        self.model@
    }
}

impl BawiKv {
    /// The segments the engine holds: the files it was opened over, each
    /// extended by the appends it has handed out since.
    pub closed spec fn disk(self) -> Seq<Segment> {
        self.segments@
    }

    /// Bytes of superseded records not yet reclaimed by compaction.
    pub closed spec fn reclaimable(self) -> u64 {
        self.uncompacted
    }

    /// The generation that accepts appends.
    pub closed spec fn active_gen(self) -> u64 {
        self.current_gen
    }

    /// The engine's invariant: generations ascend, the last segment is the
    /// active one, the index and the live map agree with the segment bytes,
    /// replaying those bytes rebuilds exactly the live map, and live plus
    /// reclaimable bytes account for every stored byte.
    pub closed spec fn wf(self) -> bool {
        &&& self.index.wf()
        &&& gens_increasing(self.segments@)
        &&& self.segments@.len() >= 1
        &&& self.segments@.last().gen == self.current_gen
        &&& index_consistent(self.index@, self.segments@, self.model@)
        &&& replay_model(self.segments@) == Option::Some(self.model@)
        &&& self.index.live() + self.uncompacted == total_len(self.segments@)
        &&& total_len(self.segments@) <= u64::MAX
    }
}

/// Replay one segment's bytes into the index: the index-rebuild step of
/// `open`, one generation at a time.  Returns how many bytes this segment
/// made reclaimable.
fn load_log_index(
    gen: u64,
    data: &Vec<u8>,
    index: &mut Index,
    Ghost(prior): Ghost<Seq<Segment>>,
    Ghost(m): Ghost<Map<Seq<char>, Seq<char>>>,
) -> (r: Result<u64, InternalError>)
    requires
        old(index).wf(),
        index_consistent(old(index)@, prior, m),
        old(index).live() + data@.len() <= u64::MAX,
    ensures
        match r {
            Ok(u) => {
                &&& replay_bytes(m, data@) matches Some(m2) && index_consistent(
                    final(index)@,
                    prior.push((Segment { gen, data: *data })),
                    m2,
                )
                &&& final(index).wf()
                &&& final(index).live() + u == old(index).live() + data@.len()
            },
            Err(e) => e == InternalError::Serde && replay_bytes(m, data@) is None,
        },
{
    let ghost newseg = Segment { gen, data: *data };
    let ghost segs = prior.push(newseg);
    let mut pos: usize = 0;
    let mut unc: u64 = 0;
    let ghost mut cur = m;
    proof {
        assert forall|k: Seq<char>| #[trigger] cur.contains_key(k) implies str_fits(k) && str_fits(
            cur[k],
        ) && location_ok(segs, index@[k], k, cur[k]) by {
            let w = choose|i: int|
                #![trigger prior[i]]
                {
                    &&& 0 <= i < prior.len()
                    &&& prior[i].gen == index@[k].gen
                    &&& index@[k].pos + index@[k].len <= prior[i].data@.len()
                    &&& prior[i].data@.subrange(
                        index@[k].pos as int,
                        index@[k].pos + index@[k].len,
                    ) == spec_encode(CommandV::Put { key: k, value: cur[k] })
                };
            assert(segs[w] == prior[w]);
        }
        assert(data@.skip(0) =~= data@);
    }
    while pos < data.len()
        invariant
            pos <= data@.len(),
            index.wf(),
            index_consistent(index@, segs, cur),
            replay_bytes(cur, data@.skip(pos as int)) == replay_bytes(m, data@),
            index.live() + unc == old(index).live() + pos,
            old(index).live() + data@.len() <= u64::MAX,
            newseg == (Segment { gen, data: *data }),
            segs == prior.push(newseg),
        decreases data@.len() - pos,
    {
        let ghost tail = data@.skip(pos as int);
        match decode_command(data, pos) {
            Err(e) => {
                return Err(e);
            },
            Ok((cmd, new_pos)) => {
                let ghost cv = cmd@;
                let ghost n = new_pos - pos;
                proof {
                    lemma_decode_sound(tail);
                    assert(tail.take(n as int) =~= data@.subrange(pos as int, new_pos as int));
                    assert(tail.skip(n as int) =~= data@.skip(new_pos as int));
                    assert(replay_bytes(cur, tail) == replay_bytes(
                        apply_command(cur, cv),
                        tail.skip(n as int),
                    ));
                }
                match cmd {
                    Command::Put { key, value } => {
                        let ghost kview = key@;
                        let ghost vview = value@;
                        let cp = CommandPos {
                            gen,
                            pos: pos as u64,
                            len: (new_pos - pos) as u64,
                        };
                        let prev = index.insert(key, cp);
                        if let Some(old_cp) = prev {
                            unc = unc + old_cp.len;
                        }
                        proof {
                            let next = apply_command(cur, cv);
                            assert(index@.dom() =~= next.dom());
                            assert forall|k: Seq<char>| #[trigger]
                                next.contains_key(k) implies str_fits(k) && str_fits(next[k])
                                && location_ok(segs, index@[k], k, next[k]) by {
                                if k == kview {
                                    let w = prior.len() as int;
                                    assert(prior.push(newseg)[w] == newseg);
                                    assert(segs[w] == newseg);
                                    assert(cv == (CommandV::Put { key: kview, value: vview }));
                                    assert(segs[w].data@.subrange(
                                        cp.pos as int,
                                        cp.pos + cp.len,
                                    ) == spec_encode((CommandV::Put { key: kview, value: vview })));
                                } else {
                                    assert(cur.contains_key(k));
                                }
                            }
                            cur = next;
                        }
                    },
                    Command::Remove { key } => {
                        let prev = index.remove(&key);
                        if let Some(old_cp) = prev {
                            unc = unc + old_cp.len;
                        }
                        unc = unc + (new_pos - pos) as u64;
                        proof {
                            let next = apply_command(cur, cv);
                            assert(index@.dom() =~= next.dom());
                            assert forall|k: Seq<char>| #[trigger]
                                next.contains_key(k) implies str_fits(k) && str_fits(next[k])
                                && location_ok(segs, index@[k], k, next[k]) by {
                                assert(cur.contains_key(k));
                            }
                            cur = next;
                        }
                    },
                }
                pos = new_pos;
            },
        }
    }
    proof {
        assert(data@.skip(pos as int) =~= Seq::<u8>::empty());
        assert(replay_bytes(cur, data@.skip(pos as int)) == Option::Some(cur));
    }
    Ok(unc)
}

impl BawiKv {
    /// Open a store over the segment files read back from one directory,
    /// handed over in ascending generation order.  Every segment is replayed
    /// into a fresh index, the bytes of superseded records are counted as
    /// reclaimable, and a new empty segment one generation past the highest
    /// becomes the active write target.  Fails exactly when some segment
    /// holds truncated or malformed records.
    pub fn open(segments: Vec<Segment>) -> (r: Result<BawiKv, InternalError>)
        requires
            gens_increasing(segments@),
            total_len(segments@) <= u64::MAX,
            segments@.len() > 0 ==> segments@.last().gen < u64::MAX,
        ensures
            match r {
                Ok(store) => {
                    &&& store.wf()
                    &&& replay_model(segments@) == Option::Some(store@)
                    &&& store.disk().len() == segments@.len() + 1
                    &&& forall|i: int|
                        0 <= i < segments@.len() ==> store.disk()[i] == segments@[i]
                    &&& store.disk().last().data@ == Seq::<u8>::empty()
                    &&& store.disk().last().gen == store.active_gen()
                    &&& store.active_gen() == (if segments@.len() == 0 {
                        1u64
                    } else {
                        (segments@.last().gen + 1) as u64
                    })
                },
                Err(e) => e == InternalError::Serde && replay_model(segments@) is None,
            },
    {
        let mut index = Index::new();
        let mut uncompacted: u64 = 0;
        let ghost mut m: Map<Seq<char>, Seq<char>> = Map::empty();
        let mut i: usize = 0;
        proof {
            assert(segments@.take(0) =~= Seq::<Segment>::empty());
            assert(index@.dom() =~= m.dom());
        }
        while i < segments.len()
            invariant
                i <= segments@.len(),
                index.wf(),
                gens_increasing(segments@),
                total_len(segments@) <= u64::MAX,
                index_consistent(index@, segments@.take(i as int), m),
                replay_segments(Map::empty(), segments@.take(i as int)) == Option::Some(m),
                index.live() + uncompacted == total_len(segments@.take(i as int)),
            decreases segments@.len() - i,
        {
            let ghost prior = segments@.take(i as int);
            proof {
                lemma_total_len_take_succ(segments@, i as int);
                lemma_total_len_take_le(segments@, i as int + 1);
            }
            let seg_gen = segments[i].gen;
            match load_log_index(
                seg_gen,
                &segments[i].data,
                &mut index,
                Ghost(prior),
                Ghost(m),
            ) {
                Ok(delta) => {
                    proof {
                        assert((Segment { gen: seg_gen, data: segments@[i as int].data })
                            =~= segments@[i as int]);
                        assert(prior.push(segments@[i as int]) =~= segments@.take(i as int + 1));
                        lemma_replay_segments_snoc(Map::empty(), prior, segments@[i as int]);
                    }
                    uncompacted = uncompacted + delta;
                    proof {
                        m = replay_bytes(m, segments@[i as int].data@).unwrap();
                    }
                    i = i + 1;
                },
                Err(e) => {
                    proof {
                        lemma_replay_segments_split(Map::empty(), segments@, i as int);
                        assert(segments@.skip(i as int)[0] == segments@[i as int]);
                        assert(replay_segments(m, segments@.skip(i as int)) is None);
                    }
                    return Err(e);
                },
            }
        }
        proof {
            assert(segments@.take(i as int) =~= segments@);
        }
        let current_gen: u64 = if segments.len() == 0 {
            1
        } else {
            segments[segments.len() - 1].gen + 1
        };
        let mut segs = segments;
        let active = Segment { gen: current_gen, data: Vec::new() };
        proof {
            lemma_replay_segments_push_empty(Map::empty(), segs@, active);
            assert forall|a: int, b: int|
                0 <= a < b < segs@.push(active).len() implies segs@.push(active)[a].gen
                < segs@.push(active)[b].gen by {
                if b < segs@.len() {
                } else {
                    assert(segs@.push(active)[b] == active);
                    if segs@.len() > 0 {
                        if a < segs@.len() - 1 {
                            assert(segs@[a].gen < segs@[segs@.len() - 1].gen);
                        }
                    }
                }
            }
            assert(segs@.push(active).drop_last() =~= segs@);
        }
        segs.push(active);
        let store = BawiKv { segments: segs, index, current_gen, uncompacted, model: Ghost(m) };
        proof {
            assert forall|k: Seq<char>| #[trigger]
                store.model@.contains_key(k) implies str_fits(k) && str_fits(store.model@[k])
                && location_ok(store.segments@, store.index@[k], k, store.model@[k]) by {
                let cp = store.index@[k];
                let w = choose|j: int|
                    #![trigger segments@[j]]
                    {
                        &&& 0 <= j < segments@.len()
                        &&& segments@[j].gen == cp.gen
                        &&& cp.pos + cp.len <= segments@[j].data@.len()
                        &&& segments@[j].data@.subrange(cp.pos as int, cp.pos + cp.len)
                            == spec_encode(CommandV::Put { key: k, value: store.model@[k] })
                    };
                assert(store.segments@[w] == segments@[w]);
            }
        }
        Ok(store)
    }

    /// The generation currently accepting appends.
    pub fn current_gen(&self) -> (r: u64)
        ensures
            r == self.active_gen(),
    {
        self.current_gen
    }

    /// Bytes of superseded records not yet reclaimed by compaction.
    pub fn reclaimable_bytes(&self) -> (r: u64)
        ensures
            r == self.reclaimable(),
    {
        self.uncompacted
    }

    /// The summed byte length of every segment the store holds.
    pub fn total_bytes(&self) -> (r: u64)
        requires
            self.wf(),
        ensures
            r == total_len(self.disk()),
    {
        let mut acc: u64 = 0;
        let mut i: usize = 0;
        while i < self.segments.len()
            invariant
                self.wf(),
                i <= self.segments@.len(),
                acc == total_len(self.segments@.take(i as int)),
            decreases self.segments@.len() - i,
        {
            proof {
                lemma_total_len_take_succ(self.segments@, i as int);
                lemma_total_len_take_le(self.segments@, i as int + 1);
            }
            acc = acc + self.segments[i].data.len() as u64;
            i = i + 1;
        }
        proof {
            assert(self.segments@.take(i as int) =~= self.segments@);
        }
        acc
    }

    /// Whether reclaimable bytes have passed the compaction threshold.
    pub fn needs_compaction(&self) -> (r: bool)
        ensures
            r == (self.reclaimable() > COMPACTION_THRESHOLD),
    {
        self.uncompacted > COMPACTION_THRESHOLD
    }
}

/// The byte length of the record that a put of `(k, v)` appends.
pub open spec fn put_record_len(k: Seq<char>, v: Seq<char>) -> int {
    spec_encode(CommandV::Put { key: k, value: v }).len() as int
}

/// The byte length of the record that a remove of `k` appends.
pub open spec fn remove_record_len(k: Seq<char>) -> int {
    spec_encode(CommandV::Remove { key: k }).len() as int
}

/// Extending the active segment's bytes moves no index entry: every span
/// that pointed at a canonical record still does.
proof fn lemma_locations_after_extend(
    segs: Seq<Segment>,
    segs2: Seq<Segment>,
    imap: Map<Seq<char>, CommandPos>,
    m: Map<Seq<char>, Seq<char>>,
)
    requires
        index_consistent(imap, segs, m),
        segs.len() >= 1,
        segs2.len() == segs.len(),
        forall|i: int| 0 <= i < segs.len() - 1 ==> segs2[i] == segs[i],
        segs2.last().gen == segs.last().gen,
        exists|ext: Seq<u8>| segs2.last().data@ == segs.last().data@ + ext,
    ensures
        index_consistent(imap, segs2, m),
{
    assert forall|k: Seq<char>| #[trigger] m.contains_key(k) implies str_fits(k) && str_fits(m[k])
        && location_ok(segs2, imap[k], k, m[k]) by {
        let cp = imap[k];
        let w = choose|i: int|
            #![trigger segs[i]]
            {
                &&& 0 <= i < segs.len()
                &&& segs[i].gen == cp.gen
                &&& cp.pos + cp.len <= segs[i].data@.len()
                &&& segs[i].data@.subrange(cp.pos as int, cp.pos + cp.len) == spec_encode(
                    CommandV::Put { key: k, value: m[k] },
                )
            };
        if w < segs.len() - 1 {
            assert(segs2[w] == segs[w]);
        } else {
            let ext = choose|ext: Seq<u8>| segs2.last().data@ == segs.last().data@ + ext;
            assert(segs2[w] == segs2.last());
            assert(segs2.last().data@.subrange(cp.pos as int, cp.pos + cp.len) =~= segs.last(
            ).data@.subrange(cp.pos as int, cp.pos + cp.len));
        }
    }
}

/// Append one encoded record to the last segment of the run; report the
/// offset it starts at.
fn append_to_active(segments: &mut Vec<Segment>, bytes: &Vec<u8>) -> (pos: usize)
    requires
        old(segments)@.len() >= 1,
    ensures
        final(segments)@.len() == old(segments)@.len(),
        forall|i: int|
            0 <= i < old(segments)@.len() - 1 ==> final(segments)@[i] == old(segments)@[i],
        final(segments)@.last().gen == old(segments)@.last().gen,
        final(segments)@.last().data@ == old(segments)@.last().data@ + bytes@,
        pos == old(segments)@.last().data@.len(),
{
    let mut seg = segments.pop().unwrap();
    let pos = seg.data.len();
    let mut b = slice_to_vec(bytes.as_slice());
    seg.data.append(&mut b);
    segments.push(seg);
    proof {
        assert(segments@.drop_last() =~= old(segments)@.drop_last());
        assert forall|i: int|
            0 <= i < old(segments)@.len() - 1 implies segments@[i] == old(segments)@[i] by {
            assert(segments@[i] == segments@.drop_last()[i]);
            assert(old(segments)@[i] == old(segments)@.drop_last()[i]);
        }
    }
    pos
}

fn find_segment(segs: &Vec<Segment>, gen: u64) -> (r: Option<usize>)
    ensures
        match r {
            Some(j) => j < segs@.len() && segs@[j as int].gen == gen,
            None => forall|j: int| 0 <= j < segs@.len() ==> segs@[j].gen != gen,
        },
{
    let mut i: usize = 0;
    while i < segs.len()
        invariant
            i <= segs@.len(),
            forall|j: int| 0 <= j < i ==> segs@[j].gen != gen,
        decreases segs@.len() - i,
    {
        if segs[i].gen == gen {
            return Some(i);
        }
        i += 1;
    }
    None
}

impl BawiKv {
    /// Record that `key` now maps to `value`.  The encoded `Put` record is
    /// appended to the active segment and returned, so the caller can mirror
    /// the append durably; the index is pointed at the new record, and the
    /// one it supersedes, if any, is counted reclaimable.
    pub fn put(&mut self, key: String, value: String) -> (r: Vec<u8>)
        requires
            old(self).wf(),
            total_len(old(self).disk()) + put_record_len(key@, value@) <= u64::MAX,
        ensures
            final(self).wf(),
            final(self)@ == old(self)@.insert(key@, value@),
            r@ == spec_encode((CommandV::Put { key: key@, value: value@ })),
            final(self).active_gen() == old(self).active_gen(),
            final(self).disk().len() == old(self).disk().len(),
            forall|i: int|
                0 <= i < old(self).disk().len() - 1 ==> final(self).disk()[i] == old(
                    self,
                ).disk()[i],
            final(self).disk().last().gen == old(self).disk().last().gen,
            final(self).disk().last().data@ == old(self).disk().last().data@ + r@,
            final(self).reclaimable() == old(self).reclaimable() + (if old(self)@.contains_key(
                key@,
            ) {
                put_record_len(key@, old(self)@[key@])
            } else {
                0
            }),
            total_len(final(self).disk()) == total_len(old(self).disk()) + put_record_len(
                key@,
                value@,
            ),
    {
        let ghost oldsegs = self.segments@;
        let ghost oldm = self.model@;
        let ghost kview = key@;
        let ghost vview = value@;
        let cmd = Command::set(key.clone(), value);
        let r = encode_command(&cmd);
        let pos = append_to_active(&mut self.segments, &r);
        proof {
            assert(self.segments@.drop_last() =~= oldsegs.drop_last());
            assert(total_len(self.segments@) == total_len(oldsegs) + r@.len());
            assert forall|a: int, b: int|
                0 <= a < b < self.segments@.len() implies self.segments@[a].gen
                < self.segments@[b].gen by {
                if b < self.segments@.len() - 1 {
                    assert(self.segments@[a] == oldsegs[a] && self.segments@[b] == oldsegs[b]);
                } else {
                    if a < self.segments@.len() - 1 {
                        assert(self.segments@[a] == oldsegs[a]);
                    }
                    assert(oldsegs[a].gen < oldsegs[b].gen);
                }
            }
            lemma_locations_after_extend(oldsegs, self.segments@, self.index@, oldm);
            lemma_replay_segments_extend_last(
                Map::empty(),
                oldsegs,
                self.segments@,
                (CommandV::Put { key: kview, value: vview }),
            );
        }
        let cp = CommandPos { gen: self.current_gen, pos: pos as u64, len: r.len() as u64 };
        let ghost oldlen: int = if oldm.contains_key(kview) {
            put_record_len(kview, oldm[kview])
        } else {
            0
        };
        proof {
            if oldm.contains_key(kview) {
                let ocp = self.index@[kview];
                let w = choose|i: int|
                    #![trigger oldsegs[i]]
                    {
                        &&& 0 <= i < oldsegs.len()
                        &&& oldsegs[i].gen == ocp.gen
                        &&& ocp.pos + ocp.len <= oldsegs[i].data@.len()
                        &&& oldsegs[i].data@.subrange(ocp.pos as int, ocp.pos + ocp.len)
                            == spec_encode(CommandV::Put { key: kview, value: oldm[kview] })
                    };
                assert(ocp.len == put_record_len(kview, oldm[kview]));
            }
        }
        let prev = self.index.insert(key, cp);
        if let Some(old_cp) = prev {
            self.uncompacted = self.uncompacted + old_cp.len;
        }
        self.model = Ghost(oldm.insert(kview, vview));
        proof {
            assert(self.index@.dom() =~= self.model@.dom());
            assert forall|k: Seq<char>| #[trigger]
                self.model@.contains_key(k) implies str_fits(k) && str_fits(self.model@[k])
                && location_ok(self.segments@, self.index@[k], k, self.model@[k]) by {
                if k == kview {
                    let w = self.segments@.len() - 1;
                    assert(self.segments@[w] == self.segments@.last());
                    assert(self.segments@.last().data@.subrange(cp.pos as int, cp.pos + cp.len)
                        =~= r@);
                } else {
                    assert(oldm.contains_key(k));
                }
            }
        }
        r
    }

    /// Look `key` up.  A live key yields its latest value, decoded from the
    /// exact byte span the index records; a missing key yields nothing, and
    /// is not an error.
    pub fn get(&mut self, key: String) -> (r: Result<Option<String>, InternalError>)
        requires
            old(self).wf(),
        ensures
            *final(self) == *old(self),
            match r {
                Ok(v) => match v {
                    Some(s) => old(self)@.contains_key(key@) && s@ == old(self)@[key@],
                    None => !old(self)@.contains_key(key@),
                },
                Err(_) => false,
            },
    {
        let ghost m = self.model@;
        match self.index.get(&key) {
            None => Ok(None),
            Some(cp) => {
                let ghost w = choose|i: int|
                    #![trigger self.segments@[i]]
                    {
                        &&& 0 <= i < self.segments@.len()
                        &&& self.segments@[i].gen == cp.gen
                        &&& cp.pos + cp.len <= self.segments@[i].data@.len()
                        &&& self.segments@[i].data@.subrange(cp.pos as int, cp.pos + cp.len)
                            == spec_encode(CommandV::Put { key: key@, value: m[key@] })
                    };
                let sj = match find_segment(&self.segments, cp.gen) {
                    Some(j) => j,
                    None => {
                        proof {
                            assert(self.segments@[w].gen == cp.gen);
                        }
                        return Err(InternalError::Unexpected);
                    },
                };
                proof {
                    if w != sj {
                        assert(self.segments@[w].gen != self.segments@[sj as int].gen);
                    }
                }
                let seg = &self.segments[sj];
                let dlen = seg.data.len();
                proof {
                    assert(cp.pos + cp.len <= dlen);
                }
                let start = cp.pos as usize;
                proof {
                    assert(start as int == cp.pos as int);
                    assert(seg.data@.skip(cp.pos as int) =~= seg.data@.subrange(
                        cp.pos as int,
                        cp.pos + cp.len,
                    ) + seg.data@.skip(cp.pos + cp.len));
                    lemma_decode_encode(
                        (CommandV::Put { key: key@, value: m[key@] }),
                        seg.data@.skip(cp.pos + cp.len),
                    );
                }
                match decode_command(&seg.data, start) {
                    Ok((cmd, _end)) => match cmd {
                        Command::Put { key: _k, value } => Ok(Some(value)),
                        Command::Remove { key: _k } => Err(InternalError::Unexpected),
                    },
                    Err(_) => Err(InternalError::Serde),
                }
            },
        }
    }

    /// Record that `key` no longer exists.  Fails with `KeyNotFound` when
    /// `key` is not live; otherwise the encoded `Remove` record is appended
    /// to the active segment and returned so the caller can mirror it, the
    /// index entry is dropped, and both the dropped record's bytes and the
    /// new record's own bytes are counted reclaimable.
    pub fn remove(&mut self, key: String) -> (r: Result<Vec<u8>, InternalError>)
        requires
            old(self).wf(),
            total_len(old(self).disk()) + remove_record_len(key@) <= u64::MAX,
        ensures
            final(self).wf(),
            match r {
                Ok(b) => {
                    &&& old(self)@.contains_key(key@)
                    &&& final(self)@ == old(self)@.remove(key@)
                    &&& b@ == spec_encode((CommandV::Remove { key: key@ }))
                    &&& final(self).active_gen() == old(self).active_gen()
                    &&& final(self).disk().len() == old(self).disk().len()
                    &&& forall|i: int|
                        0 <= i < old(self).disk().len() - 1 ==> final(self).disk()[i] == old(
                            self,
                        ).disk()[i]
                    &&& final(self).disk().last().gen == old(self).disk().last().gen
                    &&& final(self).disk().last().data@ == old(self).disk().last().data@ + b@
                    &&& final(self).reclaimable() == old(self).reclaimable() + put_record_len(
                        key@,
                        old(self)@[key@],
                    ) + remove_record_len(key@)
                },
                Err(e) => {
                    &&& e == InternalError::KeyNotFound
                    &&& !old(self)@.contains_key(key@)
                    &&& *final(self) == *old(self)
                },
            },
    {
        let ghost oldsegs = self.segments@;
        let ghost oldm = self.model@;
        let ghost kview = key@;
        let prev = self.index.remove(&key);
        let cp = match prev {
            None => {
                return Err(InternalError::KeyNotFound);
            },
            Some(cp) => cp,
        };
        proof {
            let w = choose|i: int|
                #![trigger oldsegs[i]]
                {
                    &&& 0 <= i < oldsegs.len()
                    &&& oldsegs[i].gen == cp.gen
                    &&& cp.pos + cp.len <= oldsegs[i].data@.len()
                    &&& oldsegs[i].data@.subrange(cp.pos as int, cp.pos + cp.len) == spec_encode(
                        CommandV::Put { key: kview, value: oldm[kview] },
                    )
                };
            assert(cp.len == put_record_len(kview, oldm[kview]));
        }
        let cmd = Command::remove(key);
        let r = encode_command(&cmd);
        let _pos = append_to_active(&mut self.segments, &r);
        proof {
            assert(self.segments@.drop_last() =~= oldsegs.drop_last());
            assert(total_len(self.segments@) == total_len(oldsegs) + r@.len());
            assert forall|a: int, b: int|
                0 <= a < b < self.segments@.len() implies self.segments@[a].gen
                < self.segments@[b].gen by {
                if b < self.segments@.len() - 1 {
                    assert(self.segments@[a] == oldsegs[a] && self.segments@[b] == oldsegs[b]);
                } else {
                    if a < self.segments@.len() - 1 {
                        assert(self.segments@[a] == oldsegs[a]);
                    }
                    assert(oldsegs[a].gen < oldsegs[b].gen);
                }
            }
            lemma_replay_segments_extend_last(
                Map::empty(),
                oldsegs,
                self.segments@,
                (CommandV::Remove { key: kview }),
            );
        }
        self.uncompacted = self.uncompacted + cp.len;
        self.uncompacted = self.uncompacted + r.len() as u64;
        self.model = Ghost(oldm.remove(kview));
        proof {
            assert(self.index@.dom() =~= self.model@.dom());
            lemma_locations_after_extend(oldsegs, self.segments@, self.index@, self.model@);
            assert forall|k: Seq<char>| #[trigger]
                self.model@.contains_key(k) implies oldm.contains_key(k) && oldm[k]
                == self.model@[k] by {}
        }
        Ok(r)
    }
}

/// What a compaction run asks the caller to do on disk: write `data` as the
/// file of `compaction_gen`, create an empty file for `active_gen`, and
/// delete the file of every generation in `retired`.
pub struct CompactOutcome {
    pub compaction_gen: u64,
    pub active_gen: u64,
    pub data: Vec<u8>,
    pub retired: Vec<u64>,
}

impl BawiKv {
    /// Rewrite every live record, byte for byte, into a fresh segment one
    /// generation past the active one; point the index at the copies, retire
    /// every older segment, open the generation after that as the new active
    /// segment, and reset the reclaimable counter.  The live map is
    /// untouched, and the store shrinks by exactly the reclaimable bytes.
    pub fn compact(&mut self) -> (r: CompactOutcome)
        requires
            old(self).wf(),
            old(self).active_gen() + 2 <= u64::MAX,
        ensures
            final(self).wf(),
            final(self)@ == old(self)@,
            final(self).reclaimable() == 0,
            r.compaction_gen == old(self).active_gen() + 1,
            r.active_gen == old(self).active_gen() + 2,
            final(self).active_gen() == r.active_gen,
            r.retired@.len() == old(self).disk().len(),
            forall|i: int|
                0 <= i < old(self).disk().len() ==> r.retired@[i] == old(self).disk()[i].gen,
            final(self).disk().len() == 2,
            final(self).disk()[0].gen == r.compaction_gen,
            final(self).disk()[0].data@ == r.data@,
            final(self).disk()[1].gen == r.active_gen,
            final(self).disk()[1].data@ == Seq::<u8>::empty(),
            total_len(final(self).disk()) + old(self).reclaimable() == total_len(old(self).disk()),
    {
        let cgen = self.current_gen + 1;
        let agen = self.current_gen + 2;
        let ghost olde = self.index.entries@;
        let ghost oldm = self.model@;
        let ghost oldsegs = self.segments@;
        let mut out: Vec<u8> = Vec::new();
        let mut new_entries: Vec<(String, CommandPos)> = Vec::new();
        let ghost mut pm = Map::<Seq<char>, Seq<char>>::empty();
        let mut i: usize = 0;
        proof {
            assert(olde.take(0) =~= Seq::<(String, CommandPos)>::empty());
            assert(replay_bytes(pm, out@) == Option::Some(pm));
        }
        while i < self.index.entries.len()
            invariant
                self.wf(),
                olde == self.index.entries@,
                oldm == self.model@,
                oldsegs == self.segments@,
                i <= olde.len(),
                new_entries@.len() == i,
                forall|j: int| 0 <= j < i ==> #[trigger] new_entries@[j].0@ == olde[j].0@,
                forall|j: int|
                    0 <= j < i ==> {
                        let np = #[trigger] new_entries@[j].1;
                        &&& np.gen == cgen
                        &&& np.pos + np.len <= out@.len()
                        &&& np.len == olde[j].1.len
                        &&& out@.subrange(np.pos as int, np.pos + np.len) == spec_encode(
                            CommandV::Put { key: olde[j].0@, value: oldm[olde[j].0@] },
                        )
                    },
                live_len(new_entries@) == live_len(olde.take(i as int)),
                out@.len() == live_len(olde.take(i as int)),
                replay_bytes(Map::<Seq<char>, Seq<char>>::empty(), out@) == Option::Some(pm),
                forall|k: Seq<char>| #[trigger]
                    pm.contains_key(k) <==> exists|j: int| 0 <= j < i && #[trigger] olde[j].0@
                        == k,
                forall|k: Seq<char>| #[trigger] pm.contains_key(k) ==> pm[k] == oldm[k],
            decreases olde.len() - i,
        {
            let ghost kview = olde[i as int].0@;
            proof {
                lemma_map_of_index(olde, i as int);
                assert(oldm.contains_key(kview));
            }
            let keyc = self.index.entries[i].0.clone();
            let cp = self.index.entries[i].1;
            let ghost w = choose|a: int|
                #![trigger oldsegs[a]]
                {
                    &&& 0 <= a < oldsegs.len()
                    &&& oldsegs[a].gen == cp.gen
                    &&& cp.pos + cp.len <= oldsegs[a].data@.len()
                    &&& oldsegs[a].data@.subrange(cp.pos as int, cp.pos + cp.len) == spec_encode(
                        CommandV::Put { key: kview, value: oldm[kview] },
                    )
                };
            let sj = match find_segment(&self.segments, cp.gen) {
                Some(j) => j,
                None => {
                    proof {
                        assert(oldsegs[w].gen == cp.gen);
                        assert(false);
                    }
                    0
                },
            };
            proof {
                if w != sj {
                    assert(oldsegs[w].gen != oldsegs[sj as int].gen);
                }
            }
            let seg = &self.segments[sj];
            let dlen = seg.data.len();
            proof {
                assert(cp.pos + cp.len <= dlen);
            }
            let start = cp.pos as usize;
            let end = (cp.pos + cp.len) as usize;
            let piece = slice_subrange(seg.data.as_slice(), start, end);
            let newpos = out.len();
            let mut pv = slice_to_vec(piece);
            let ghost oldout = out@;
            let ghost oldne = new_entries@;
            out.append(&mut pv);
            new_entries.push((keyc, CommandPos { gen: cgen, pos: newpos as u64, len: cp.len }));
            proof {
                let enc = spec_encode(CommandV::Put { key: kview, value: oldm[kview] });
                assert(piece@ == enc);
                assert(out@ == oldout + enc);
                lemma_replay_bytes_snoc(
                    Map::<Seq<char>, Seq<char>>::empty(),
                    oldout,
                    (CommandV::Put { key: kview, value: oldm[kview] }),
                );
                pm = pm.insert(kview, oldm[kview]);
                assert(out@.subrange(newpos as int, newpos + cp.len) =~= enc);
                assert forall|j: int| 0 <= j < i implies {
                    let np = #[trigger] new_entries@[j].1;
                    &&& np.gen == cgen
                    &&& np.pos + np.len <= out@.len()
                    &&& np.len == olde[j].1.len
                    &&& out@.subrange(np.pos as int, np.pos + np.len) == spec_encode(
                        CommandV::Put { key: olde[j].0@, value: oldm[olde[j].0@] },
                    )
                } by {
                    assert(new_entries@[j] == oldne[j]);
                    let np = oldne[j].1;
                    assert(out@.subrange(np.pos as int, np.pos + np.len) =~= oldout.subrange(
                        np.pos as int,
                        np.pos + np.len,
                    ));
                }
                assert(olde.take(i + 1).drop_last() =~= olde.take(i as int));
                assert(olde.take(i + 1).last() == olde[i as int]);
                assert(new_entries@.drop_last() =~= oldne);
                assert forall|k: Seq<char>| #[trigger]
                    pm.contains_key(k) implies exists|j: int|
                    0 <= j < i + 1 && #[trigger] olde[j].0@ == k by {
                    if k == kview {
                        assert(olde[i as int].0@ == k);
                    } else {
                        let j = choose|j: int| 0 <= j < i && #[trigger] olde[j].0@ == k;
                        assert(olde[j].0@ == k);
                    }
                }
                assert forall|k: Seq<char>|
                    exists|j: int| 0 <= j < i + 1 && #[trigger] olde[j].0@ == k implies #[trigger] pm.contains_key(
                    k,
                ) by {
                    let j = choose|j: int| 0 <= j < i + 1 && #[trigger] olde[j].0@ == k;
                    if j < i {
                        assert(olde[j].0@ == k);
                    }
                }
            }
            i += 1;
        }
        proof {
            assert(olde.take(i as int) =~= olde);
            assert forall|k: Seq<char>| #[trigger] pm.contains_key(k) implies oldm.contains_key(
                k,
            ) by {
                let j = choose|j: int| 0 <= j < i && #[trigger] olde[j].0@ == k;
                lemma_map_of_index(olde, j);
            }
            assert forall|k: Seq<char>| #[trigger] oldm.contains_key(k) implies pm.contains_key(
                k,
            ) by {
                lemma_map_of_contains(olde, k);
                assert(map_of(olde).contains_key(k));
            }
            assert(pm =~= oldm);
        }
        let seg_data = slice_to_vec(out.as_slice());
        let mut retired: Vec<u64> = Vec::new();
        let mut j: usize = 0;
        while j < self.segments.len()
            invariant
                oldsegs == self.segments@,
                j <= oldsegs.len(),
                retired@.len() == j,
                forall|a: int| 0 <= a < j ==> retired@[a] == oldsegs[a].gen,
            decreases oldsegs.len() - j,
        {
            retired.push(self.segments[j].gen);
            j += 1;
        }
        let ghost oldlive = live_len(olde);
        let mut new_segments: Vec<Segment> = Vec::new();
        new_segments.push(Segment { gen: cgen, data: out });
        new_segments.push(Segment { gen: agen, data: Vec::new() });
        self.segments = new_segments;
        self.index = Index { entries: new_entries };
        self.current_gen = agen;
        self.uncompacted = 0;
        proof {
            reveal_with_fuel(total_len, 3);
            reveal_with_fuel(replay_segments, 3);
            let segs = self.segments@;
            assert(segs.len() == 2);
            assert(segs[0].gen == cgen && segs[0].data@.len() == oldlive);
            assert(segs[1].gen == agen && segs[1].data@.len() == 0);
            assert forall|a: int, b: int| 0 <= a < b < segs.len() implies segs[a].gen
                < segs[b].gen by {}
            assert(keys_distinct(self.index.entries@));
            assert(segs.drop_last() =~= seq![segs[0]]);
            assert(seq![segs[0]].drop_last() =~= Seq::<Segment>::empty());
            assert(total_len(segs) == oldlive);
            assert(replay_bytes(Map::<Seq<char>, Seq<char>>::empty(), segs[0].data@)
                == Option::Some(oldm));
            assert(segs.skip(1) =~= seq![segs[1]]);
            assert(seq![segs[1]].skip(1) =~= Seq::<Segment>::empty());
            assert(replay_bytes(oldm, segs[1].data@) == Option::Some(oldm));
            assert(replay_segments(oldm, segs.skip(1)) == Option::Some(oldm));
            assert(replay_model(segs) == Option::Some(oldm));
            assert forall|k: Seq<char>| #[trigger]
                self.index@.contains_key(k) implies oldm.contains_key(k) by {
                lemma_map_of_contains(self.index.entries@, k);
                let j2 = choose|a: int|
                    0 <= a < self.index.entries@.len() && #[trigger] self.index.entries@[a].0@
                        == k;
                lemma_map_of_index(olde, j2);
            }
            assert forall|k: Seq<char>| #[trigger]
                oldm.contains_key(k) implies self.index@.contains_key(k) by {
                lemma_map_of_contains(olde, k);
                let j2 = choose|a: int| 0 <= a < olde.len() && #[trigger] olde[a].0@ == k;
                lemma_map_of_contains(self.index.entries@, k);
                assert(self.index.entries@[j2].0@ == k);
            }
            assert(self.index@.dom() =~= oldm.dom());
            assert forall|k: Seq<char>| #[trigger] oldm.contains_key(k) implies str_fits(k)
                && str_fits(oldm[k]) && location_ok(segs, self.index@[k], k, oldm[k]) by {
                lemma_map_of_contains(olde, k);
                let j2 = choose|a: int| 0 <= a < olde.len() && #[trigger] olde[a].0@ == k;
                lemma_map_of_index(olde, j2);
                assert(self.index.entries@[j2].0@ == k);
                lemma_map_of_index(self.index.entries@, j2);
                let np = self.index.entries@[j2].1;
                assert(segs[0].data@.subrange(np.pos as int, np.pos + np.len) == spec_encode(
                    CommandV::Put { key: k, value: oldm[k] },
                ));
            }
        }
        CompactOutcome { compaction_gen: cgen, active_gen: agen, data: seg_data, retired }
    }
}

/// Round trip: a put of `(k, v)` leaves the store's live map holding `v`
/// under `k`, so the next get of `k` yields `v`.
pub proof fn lemma_put_then_get(m: Map<Seq<char>, Seq<char>>, k: Seq<char>, v: Seq<char>)
    ensures
        m.insert(k, v).contains_key(k),
        m.insert(k, v)[k] == v,
{
}

/// Overwrite: two puts of one key leave exactly the second value, whatever
/// value the first put wrote.
pub proof fn lemma_overwrite(
    m: Map<Seq<char>, Seq<char>>,
    k: Seq<char>,
    v1: Seq<char>,
    v2: Seq<char>,
)
    ensures
        m.insert(k, v1).insert(k, v2).contains_key(k),
        m.insert(k, v1).insert(k, v2)[k] == v2,
        m.insert(k, v1).insert(k, v2) == m.insert(k, v2),
{
    assert(m.insert(k, v1).insert(k, v2) =~= m.insert(k, v2));
}

/// Remove: after a remove of `k` the store's live map no longer holds `k`,
/// so a get yields nothing and a second remove finds no key to drop.
pub proof fn lemma_remove_then_get(m: Map<Seq<char>, Seq<char>>, k: Seq<char>)
    ensures
        !m.remove(k).contains_key(k),
{
}

/// Compaction shrinks the store: it frees exactly the reclaimable bytes, so
/// once they have passed the threshold that triggers it, the stored bytes
/// after compaction are strictly fewer than before.
pub proof fn lemma_compaction_shrinks(total_before: nat, total_after: nat, reclaimed: u64)
    requires
        total_after + reclaimed == total_before,
        reclaimed > COMPACTION_THRESHOLD,
    ensures
        total_after < total_before,
{
}

/// Replay idempotence: the segments of a well-formed store replay to exactly
/// its live map, and they meet `open`'s demands, so a store reopened over
/// them with no further writes resolves every key to the same value, and no
/// others.
pub proof fn lemma_replay_rebuilds(s: &BawiKv)
    requires
        s.wf(),
    ensures
        replay_model(s.disk()) == Option::Some(s@),
        gens_increasing(s.disk()),
        total_len(s.disk()) <= u64::MAX,
{
}

/// The character of one decimal digit.
pub open spec fn digit_char(d: u64) -> char {
    ((48 + (d % 10)) as u8) as char
}

/// The decimal digits of `n`, most significant first.
pub open spec fn spec_digits(n: u64) -> Seq<char>
    decreases n,
{
    if n < 10 {
        seq![digit_char(n)]
    } else {
        spec_digits(n / 10).push(digit_char(n % 10))
    }
}

/// The file name of one generation: its decimal digits, then `.log`.
pub open spec fn spec_log_name(gen: u64) -> Seq<char> {
    spec_digits(gen) + ".log"@
}

fn push_digits(s: &mut String, n: u64)
    ensures
        final(s)@ == old(s)@ + spec_digits(n),
    decreases n,
{
    let ghost before = s@;
    if n >= 10 {
        push_digits(s, n / 10);
    }
    let d = n % 10;
    let lit: &'static str = if d == 0 {
        "0"
    } else if d == 1 {
        "1"
    } else if d == 2 {
        "2"
    } else if d == 3 {
        "3"
    } else if d == 4 {
        "4"
    } else if d == 5 {
        "5"
    } else if d == 6 {
        "6"
    } else if d == 7 {
        "7"
    } else if d == 8 {
        "8"
    } else {
        "9"
    };
    proof {
        reveal_strlit("0");
        reveal_strlit("1");
        reveal_strlit("2");
        reveal_strlit("3");
        reveal_strlit("4");
        reveal_strlit("5");
        reveal_strlit("6");
        reveal_strlit("7");
        reveal_strlit("8");
        reveal_strlit("9");
        assert(lit@ =~= seq![digit_char(n)]);
    }
    s.append(lit);
    proof {
        assert(s@ =~= before + spec_digits(n));
    }
}

/// The segment file name that one generation uses inside the store's
/// directory.
pub fn log_path(gen: u64) -> (r: String)
    ensures
        r@ == spec_log_name(gen),
{
    let mut s = String::new();
    push_digits(&mut s, gen);
    s.append(".log");
    proof {
        reveal_strlit(".log");
        assert(s@ =~= spec_log_name(gen));
    }
    s
}

/// Whether `c` is a decimal digit.
pub open spec fn is_digit(c: char) -> bool {
    48 <= c as u32 <= 57
}

/// The value of a run of decimal digits, most significant first.
pub open spec fn digits_val(s: Seq<char>) -> nat
    decreases s.len(),
{
    if s.len() == 0 {
        0
    } else {
        (digits_val(s.drop_last()) * 10 + (s.last() as u32 - 48)) as nat
    }
}

/// The generation number a file name carries: the value of its digits before
/// one `.log` suffix; nothing for every other name, and nothing when the
/// digits outgrow `u64`.
pub open spec fn gen_of_name(s: Seq<char>) -> Option<u64> {
    let stem = s.take(s.len() - 4);
    if s.len() >= 5 && s.skip(s.len() - 4) == ".log"@ && (forall|i: int|
        0 <= i < stem.len() ==> is_digit(#[trigger] stem[i])) && digits_val(stem) <= u64::MAX {
        Option::Some(digits_val(stem) as u64)
    } else {
        Option::None
    }
}

proof fn lemma_digits_val_take_le(s: Seq<char>, i: int)
    requires
        0 <= i <= s.len(),
        forall|j: int| 0 <= j < s.len() ==> is_digit(#[trigger] s[j]),
    ensures
        digits_val(s.take(i)) <= digits_val(s),
    decreases s.len() - i,
{
    if i == s.len() {
        assert(s.take(i) =~= s);
    } else {
        assert(s.take(i + 1).drop_last() =~= s.take(i));
        assert(s.take(i + 1).last() == s[i]);
        assert(is_digit(s[i]));
        assert(digits_val(s.take(i)) <= digits_val(s.take(i + 1))) by {
            assert(digits_val(s.take(i)) * 10 >= digits_val(s.take(i))) by (nonlinear_arith);
        }
        lemma_digits_val_take_le(s, i + 1);
    }
}

fn parse_gen_name(name: &String) -> (r: Option<u64>)
    ensures
        r == gen_of_name(name@),
{
    let n = name.as_str().unicode_len();
    let ghost stem = name@.take(name@.len() - 4);
    proof {
        reveal_strlit(".log");
    }
    if n < 5 {
        return None;
    }
    let c1 = name.as_str().get_char(n - 4);
    let c2 = name.as_str().get_char(n - 3);
    let c3 = name.as_str().get_char(n - 2);
    let c4 = name.as_str().get_char(n - 1);
    if !(c1 == '.' && c2 == 'l' && c3 == 'o' && c4 == 'g') {
        proof {
            if name@.skip(name@.len() - 4) == ".log"@ {
                assert(name@.skip(name@.len() - 4)[0] == '.');
                assert(name@.skip(name@.len() - 4)[1] == 'l');
                assert(name@.skip(name@.len() - 4)[2] == 'o');
                assert(name@.skip(name@.len() - 4)[3] == 'g');
            }
        }
        return None;
    }
    proof {
        assert(name@.skip(name@.len() - 4) =~= ".log"@);
    }
    let mut acc: u64 = 0;
    let mut i: usize = 0;
    while i < n - 4
        invariant
            n == name@.len(),
            5 <= n,
            stem == name@.take(name@.len() - 4),
            i <= n - 4,
            forall|j: int| 0 <= j < i ==> is_digit(#[trigger] stem[j]),
            acc == digits_val(stem.take(i as int)),
            name@.skip(name@.len() - 4) == ".log"@,
        decreases n - 4 - i,
    {
        let c = name.as_str().get_char(i);
        let u = c as u32;
        proof {
            assert(stem[i as int] == c);
            assert(stem.take(i as int + 1).drop_last() =~= stem.take(i as int));
            assert(stem.take(i as int + 1).last() == stem[i as int]);
        }
        if u < 48 || u > 57 {
            return None;
        }
        let d = (u - 48) as u64;
        if acc > (u64::MAX - d) / 10 {
            proof {
                assert(digits_val(stem.take(i as int + 1)) == acc * 10 + d);
                assert(acc * 10 + d > u64::MAX) by (nonlinear_arith)
                    requires
                        acc > (u64::MAX - d) / 10,
                        d <= 9,
                ;
                if forall|j: int| 0 <= j < stem.len() ==> is_digit(#[trigger] stem[j]) {
                    lemma_digits_val_take_le(stem, i as int + 1);
                }
            }
            return None;
        }
        proof {
            assert(acc * 10 + d <= u64::MAX) by (nonlinear_arith)
                requires
                    acc <= (u64::MAX - d) / 10,
                    d <= 9,
            ;
        }
        acc = acc * 10 + d;
        i += 1;
    }
    proof {
        assert(stem.take(i as int) =~= stem);
    }
    Some(acc)
}

fn insert_sorted(v: &mut Vec<u64>, g: u64)
    requires
        forall|i: int, j: int| 0 <= i < j < old(v)@.len() ==> old(v)@[i] < old(v)@[j],
    ensures
        forall|i: int, j: int| 0 <= i < j < final(v)@.len() ==> final(v)@[i] < final(v)@[j],
        forall|x: u64| final(v)@.contains(x) <==> old(v)@.contains(x) || x == g,
{
    let mut i: usize = 0;
    while i < v.len() && v[i] < g
        invariant
            i <= v@.len(),
            v == old(v),
            forall|j: int| 0 <= j < i ==> v@[j] < g,
        decreases v@.len() - i,
    {
        i += 1;
    }
    if i < v.len() && v[i] == g {
        proof {
            assert(v@.contains(g));
            assert forall|x: u64| v@.contains(x) <==> old(v)@.contains(x) || x == g by {}
        }
        return;
    }
    let ghost before = v@;
    proof {
        before.insert_ensures(i as int, g);
        if i < before.len() {
            assert(!(before[i as int] < g));
        }
    }
    v.insert(i, g);
    proof {
        assert forall|a: int, b: int| 0 <= a < b < v@.len() implies v@[a] < v@[b] by {
            if a < i {
                assert(v@[a] == before[a]);
            } else if a == i {
                assert(v@[a] == g);
            } else {
                assert(v@[a] == before[a - 1]);
                assert(!(before[a - 1] < g));
            }
            if b < i {
                assert(v@[b] == before[b]);
            } else if b == i {
                assert(v@[b] == g);
            } else {
                assert(v@[b] == before[b - 1]);
                assert(!(before[b - 1] < g));
            }
        }
        assert forall|x: u64| v@.contains(x) implies before.contains(x) || x == g by {
            let a = choose|a: int| 0 <= a < v@.len() && v@[a] == x;
            if a < i {
                assert(before[a] == x);
            } else if a > i {
                assert(before[a - 1] == x);
            }
        }
        assert forall|x: u64| before.contains(x) || x == g implies v@.contains(x) by {
            if x == g {
                assert(v@[i as int] == g);
            } else if before.contains(x) {
                let a = choose|a: int| 0 <= a < before.len() && before[a] == x;
                if a < i {
                    assert(v@[a] == x);
                } else {
                    assert(v@[a + 1] == x);
                }
            }
        }
    }
}

/// The generations of the segment files among `names`, in ascending order:
/// exactly the names of the form `<digits>.log`, each generation once.
/// Foreign names are skipped, as a store directory may hold other files.
pub fn sorted_logs_list(names: &Vec<String>) -> (r: Vec<u64>)
    ensures
        forall|i: int, j: int| 0 <= i < j < r@.len() ==> r@[i] < r@[j],
        forall|g: u64| #[trigger]
            r@.contains(g) <==> exists|i: int|
                0 <= i < names@.len() && gen_of_name(#[trigger] names@[i]@) == Some(g),
{
    let mut r: Vec<u64> = Vec::new();
    let mut i: usize = 0;
    while i < names.len()
        invariant
            i <= names@.len(),
            forall|a: int, b: int| 0 <= a < b < r@.len() ==> r@[a] < r@[b],
            forall|g: u64| #[trigger]
                r@.contains(g) <==> exists|j: int|
                    0 <= j < i && gen_of_name(#[trigger] names@[j]@) == Some(g),
        decreases names@.len() - i,
    {
        let ghost before = r@;
        match parse_gen_name(&names[i]) {
            Some(g) => {
                insert_sorted(&mut r, g);
                proof {
                    assert forall|x: u64| #[trigger]
                        r@.contains(x) implies exists|j: int|
                        0 <= j < i + 1 && gen_of_name(#[trigger] names@[j]@) == Some(x) by {
                        if x == g {
                            assert(gen_of_name(names@[i as int]@) == Some(x));
                        } else {
                            assert(before.contains(x));
                            let j = choose|j: int|
                                0 <= j < i && gen_of_name(#[trigger] names@[j]@) == Some(x);
                            assert(gen_of_name(names@[j]@) == Some(x));
                        }
                    }
                    assert forall|x: u64|
                        exists|j: int|
                            0 <= j < i + 1 && gen_of_name(#[trigger] names@[j]@) == Some(
                                x,
                            ) implies #[trigger] r@.contains(x) by {
                        let j = choose|j: int|
                            0 <= j < i + 1 && gen_of_name(#[trigger] names@[j]@) == Some(x);
                        if j < i {
                            assert(before.contains(x));
                        }
                    }
                }
            },
            None => {
                proof {
                    assert forall|x: u64| #[trigger]
                        r@.contains(x) implies exists|j: int|
                        0 <= j < i + 1 && gen_of_name(#[trigger] names@[j]@) == Some(x) by {
                        let j = choose|j: int|
                            0 <= j < i && gen_of_name(#[trigger] names@[j]@) == Some(x);
                        assert(gen_of_name(names@[j]@) == Some(x));
                    }
                    assert forall|x: u64|
                        exists|j: int|
                            0 <= j < i + 1 && gen_of_name(#[trigger] names@[j]@) == Some(
                                x,
                            ) implies #[trigger] r@.contains(x) by {
                        let j = choose|j: int|
                            0 <= j < i + 1 && gen_of_name(#[trigger] names@[j]@) == Some(x);
                        assert(j < i);
                    }
                }
            },
        }
        i += 1;
    }
    r
}

} // verus!
