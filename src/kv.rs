use core::cmp::Ordering;

use vstd::prelude::*;

use crate::command::Command;
use crate::error::{ErrorKind, KvsError, Result};
use crate::index::{key_cmp, lemma_total_same_lens, total_len, CommandPos, Entry, Index};

verus! {

/// Dead bytes above which `set` asks for a compaction.
pub const COMPACTION_THRESHOLD: u64 = 1048576;

/// One command as replay found it in a generation file, with the byte range
/// it took there.
pub struct Record {
    pub cmd: Command,
    pub pos: u64,
    pub len: u64,
}

/// The records of one generation file, in file order.
pub struct Segment {
    pub gen: u64,
    pub records: Vec<Record>,
}

/// `x`, or `u64::MAX` where `x` does not fit.
pub open spec fn capped(x: int) -> u64 {
    if x > u64::MAX {
        u64::MAX
    } else {
        x as u64
    }
}

/// What one record of generation `gen` does to the index.
pub open spec fn apply(m: Map<Seq<char>, CommandPos>, gen: u64, r: Record) -> Map<
    Seq<char>,
    CommandPos,
> {
    match r.cmd {
        Command::SetValue { key, .. } => m.insert(key@, CommandPos { gen, pos: r.pos, len: r.len }),
        Command::Remove { key } => m.remove(key@),
    }
}

/// The bytes that one record makes dead: the entry it supersedes, and a
/// `Remove` record itself.
pub open spec fn dead_by(m: Map<Seq<char>, CommandPos>, r: Record) -> int {
    let k = r.cmd.key_view();
    let prev: int = if m.contains_key(k) {
        m[k].len as int
    } else {
        0
    };
    match r.cmd {
        Command::SetValue { .. } => prev,
        Command::Remove { .. } => prev + r.len,
    }
}

/// The index after replaying `recs` of generation `gen`, in order, over `m`.
pub open spec fn replay(m: Map<Seq<char>, CommandPos>, gen: u64, recs: Seq<Record>) -> Map<
    Seq<char>,
    CommandPos,
>
    decreases recs.len(),
{
    if recs.len() == 0 {
        m
    } else {
        apply(replay(m, gen, recs.drop_last()), gen, recs.last())
    }
}

/// The dead bytes that replaying `recs` over `m` finds.
pub open spec fn replay_dead(m: Map<Seq<char>, CommandPos>, gen: u64, recs: Seq<Record>) -> int
    decreases recs.len(),
{
    if recs.len() == 0 {
        0
    } else {
        replay_dead(m, gen, recs.drop_last()) + dead_by(
            replay(m, gen, recs.drop_last()),
            recs.last(),
        )
    }
}

/// The index after replaying whole segments, in order, over `m`.
pub open spec fn replay_all(m: Map<Seq<char>, CommandPos>, segs: Seq<Segment>) -> Map<
    Seq<char>,
    CommandPos,
>
    decreases segs.len(),
{
    if segs.len() == 0 {
        m
    } else {
        replay(replay_all(m, segs.drop_last()), segs.last().gen, segs.last().records@)
    }
}

/// The dead bytes that replaying whole segments over `m` finds.
pub open spec fn replay_all_dead(m: Map<Seq<char>, CommandPos>, segs: Seq<Segment>) -> int
    decreases segs.len(),
{
    if segs.len() == 0 {
        0
    } else {
        replay_all_dead(m, segs.drop_last()) + replay_dead(
            replay_all(m, segs.drop_last()),
            segs.last().gen,
            segs.last().records@,
        )
    }
}

/// The bytes of a run of records.
pub open spec fn records_len(recs: Seq<Record>) -> int
    decreases recs.len(),
{
    if recs.len() == 0 {
        0
    } else {
        records_len(recs.drop_last()) + recs.last().len
    }
}

/// The bytes of the records of whole segments.
pub open spec fn segments_len(segs: Seq<Segment>) -> int
    decreases segs.len(),
{
    if segs.len() == 0 {
        0
    } else {
        segments_len(segs.drop_last()) + records_len(segs.last().records@)
    }
}

/// Generation numbers in strictly increasing order.
pub open spec fn strictly_increasing(s: Seq<u64>) -> bool {
    forall|i: int, j: int| 0 <= i < j < s.len() ==> s[i] < s[j]
}

/// The offset at which the `i`-th entry lands when the entries are written
/// back to back.
pub open spec fn live_offset(es: Seq<Entry>, i: int) -> int
    decreases i,
{
    if i <= 0 {
        0
    } else {
        live_offset(es, i - 1) + es[i - 1].pos.len
    }
}

proof fn lemma_capped_add(x: int, y: int)
    requires
        0 <= x,
        0 <= y,
    ensures
        capped(capped(x) + y) == capped(x + y),
{
}

proof fn lemma_live_offset_mono(es: Seq<Entry>, i: int, j: int)
    requires
        0 <= i <= j <= es.len(),
    ensures
        live_offset(es, i) <= live_offset(es, j),
    decreases j - i,
{
    if i < j {
        lemma_live_offset_mono(es, i, j - 1);
    }
}

/// Replay only ever stores locations in `gen` or ones that were there.
proof fn lemma_replay_gens(m: Map<Seq<char>, CommandPos>, gen: u64, recs: Seq<Record>, gens: Seq<u64>)
    requires
        gens.contains(gen),
        forall|k: Seq<char>| #[trigger] m.contains_key(k) ==> gens.contains(m[k].gen),
    ensures
        forall|k: Seq<char>|
            #[trigger] replay(m, gen, recs).contains_key(k) ==> gens.contains(
                replay(m, gen, recs)[k].gen,
            ),
    decreases recs.len(),
{
    if recs.len() > 0 {
        lemma_replay_gens(m, gen, recs.drop_last(), gens);
        let prev = replay(m, gen, recs.drop_last());
        let r = replay(m, gen, recs);
        assert forall|k: Seq<char>| #[trigger] r.contains_key(k) implies gens.contains(r[k].gen) by {
            if prev.contains_key(k) {
                assert(gens.contains(prev[k].gen));
            }
        }
    }
}

proof fn lemma_replay_dead_nonneg(m: Map<Seq<char>, CommandPos>, gen: u64, recs: Seq<Record>)
    ensures
        replay_dead(m, gen, recs) >= 0,
    decreases recs.len(),
{
    if recs.len() > 0 {
        lemma_replay_dead_nonneg(m, gen, recs.drop_last());
    }
}

proof fn lemma_replay_all_dead_nonneg(m: Map<Seq<char>, CommandPos>, segs: Seq<Segment>)
    ensures
        replay_all_dead(m, segs) >= 0,
    decreases segs.len(),
{
    if segs.len() > 0 {
        lemma_replay_all_dead_nonneg(m, segs.drop_last());
        lemma_replay_dead_nonneg(
            replay_all(m, segs.drop_last()),
            segs.last().gen,
            segs.last().records@,
        );
    }
}

/// Replays the records of generation `gen` into `index`, in file order, and
/// returns the dead bytes they leave behind.
pub fn load(gen: u64, records: &Vec<Record>, index: &mut Index) -> (dead: u64)
    requires
        old(index).wf(),
    ensures
        final(index).wf(),
        final(index)@ == replay(old(index)@, gen, records@),
        dead == capped(replay_dead(old(index)@, gen, records@)),
        total_len(final(index).entries()) + replay_dead(old(index)@, gen, records@) == total_len(
            old(index).entries(),
        ) + records_len(records@),
{
    let mut dead: u64 = 0;
    let mut i: usize = 0;
    while i < records.len()
        invariant
            index.wf(),
            i <= records@.len(),
            index@ == replay(old(index)@, gen, records@.take(i as int)),
            dead == capped(replay_dead(old(index)@, gen, records@.take(i as int))),
            total_len(index.entries()) + replay_dead(old(index)@, gen, records@.take(i as int))
                == total_len(old(index).entries()) + records_len(records@.take(i as int)),
        decreases records@.len() - i,
    {
        let r = &records[i];
        let ghost before = index@;
        let ghost prefix = records@.take(i as int);
        let ghost dead_before = replay_dead(old(index)@, gen, prefix);
        proof {
            lemma_replay_dead_nonneg(old(index)@, gen, prefix);
        }
        assert(records@.take(i + 1).drop_last() =~= prefix);
        match &r.cmd {
            Command::SetValue { key, .. } => {
                let prev = index.insert(key.clone(), CommandPos { gen, pos: r.pos, len: r.len });
                if let Some(p) = prev {
                    proof {
                        lemma_capped_add(dead_before, p.len as int);
                    }
                    dead = if dead > u64::MAX - p.len {
                        u64::MAX
                    } else {
                        dead + p.len
                    };
                } else {
                    proof {
                        lemma_capped_add(dead_before, 0);
                    }
                }
            },
            Command::Remove { key } => {
                let prev = index.remove(key);
                let mut gone: u64 = r.len;
                if let Some(p) = prev {
                    gone = if gone > u64::MAX - p.len {
                        u64::MAX
                    } else {
                        gone + p.len
                    };
                }
                let ghost gone_int: int = if before.contains_key(key@) {
                    before[key@].len + r.len
                } else {
                    r.len as int
                };
                proof {
                    lemma_capped_add(dead_before, gone_int);
                    if gone_int > u64::MAX {
                        assert(capped(dead_before + gone_int) == u64::MAX);
                    }
                }
                dead = if gone == u64::MAX || dead > u64::MAX - gone {
                    u64::MAX
                } else {
                    dead + gone
                };
            },
        }
        i = i + 1;
    }
    assert(records@.take(records@.len() as int) =~= records@);
    dead
}

/// The in-memory half of the log-structured store: the index, the list of
/// generation files, the current generation and how far it has been written,
/// and the count of dead bytes since the last compaction. Reading and writing
/// the files is the caller's part; each method here takes the outcome of that
/// work and keeps the state in step with the files.
pub struct KvStore {
    index: Index,
    gens: Vec<u64>,
    current_gen: u64,
    writer_pos: u64,
    uncompacted: u64,
    log_bytes: Ghost<int>,
    dead_bytes: Ghost<int>,
}

/// One copy of a compaction: the bytes at `from` go to `to`.
pub struct Move {
    pub from: CommandPos,
    pub to: CommandPos,
}

/// A compaction worked out from the index: every live record is copied, in
/// key order, from `moves[i].from` to `moves[i].to` in the new generation
/// `compaction_gen`; writes go on in `next_gen`; the files in `stale` are
/// deleted once the copies are made.
pub struct CompactionPlan {
    pub compaction_gen: u64,
    pub next_gen: u64,
    pub moves: Vec<Move>,
    pub stale: Vec<u64>,
}

impl KvStore {
    /// The index: each live key and the location of its latest `Set`.
    pub closed spec fn index(&self) -> Map<Seq<char>, CommandPos> {
        self.index@
    }

    /// The live entries in index order.
    pub closed spec fn entries(&self) -> Seq<Entry> {
        self.index.entries()
    }

    /// The generations that have a file, in increasing order.
    pub closed spec fn gens(&self) -> Seq<u64> {
        self.gens@
    }

    /// The generation that appends go to.
    pub closed spec fn current_gen(&self) -> u64 {
        self.current_gen
    }

    /// How many bytes have been appended to the current generation.
    pub closed spec fn writer_pos(&self) -> u64 {
        self.writer_pos
    }

    /// Dead bytes since the last compaction.
    pub closed spec fn uncompacted(&self) -> u64 {
        self.uncompacted
    }

    /// The bytes of the records in the generation files.
    pub closed spec fn log_bytes(&self) -> int {
        self.log_bytes@
    }

    /// Dead bytes since the last compaction, without the cap of the counter.
    pub closed spec fn dead_bytes(&self) -> int {
        self.dead_bytes@
    }

    /// The bytes of the live records.
    pub closed spec fn live_bytes(&self) -> int {
        total_len(self.index.entries())
    }

    pub closed spec fn wf(&self) -> bool {
        &&& self.index.wf()
        &&& self.dead_bytes@ >= 0
        &&& self.uncompacted == capped(self.dead_bytes@)
        &&& total_len(self.index.entries()) + self.dead_bytes@ <= self.log_bytes@
        &&& strictly_increasing(self.gens@)
        &&& self.gens@.len() > 0
        &&& self.gens@.last() == self.current_gen
        &&& forall|k: Seq<char>| #[trigger]
            self.index@.contains_key(k) ==> self.gens@.contains(self.index@[k].gen)
        &&& forall|k: Seq<char>| #[trigger]
            self.index@.contains_key(k) && self.index@[k].gen == self.current_gen
                ==> self.index@[k].pos + self.index@[k].len <= self.writer_pos
    }

    /// Builds the state from the generation files found on disk, given in
    /// increasing generation order, each with its records in file order.
    /// Writes then go to a fresh generation one past the last.
    pub fn open(segs: &Vec<Segment>) -> (r: Result<KvStore>)
        requires
            forall|i: int, j: int| 0 <= i < j < segs@.len() ==> segs@[i].gen < segs@[j].gen,
        ensures
            (segs@.len() > 0 && segs@.last().gen == u64::MAX) <==> r is Err,
            r is Err ==> r->Err_0.kind == ErrorKind::Io,
            r matches Ok(s) ==> {
                &&& s.wf()
                &&& s.index() == replay_all(Map::empty(), segs@)
                &&& s.uncompacted() == capped(replay_all_dead(Map::empty(), segs@))
                &&& s.dead_bytes() == replay_all_dead(Map::empty(), segs@)
                &&& s.log_bytes() == segments_len(segs@)
                &&& s.current_gen() == (if segs@.len() == 0 {
                    1
                } else {
                    segs@.last().gen + 1
                })
                &&& s.writer_pos() == 0
                &&& s.gens() == segs@.map_values(|g: Segment| g.gen).push(s.current_gen())
            },
    {
        let mut index = Index::new();
        let mut gens: Vec<u64> = Vec::new();
        let mut uncompacted: u64 = 0;
        let mut i: usize = 0;
        while i < segs.len()
            invariant
                index.wf(),
                i <= segs@.len(),
                forall|a: int, b: int| 0 <= a < b < segs@.len() ==> segs@[a].gen < segs@[b].gen,
                index@ == replay_all(Map::empty(), segs@.take(i as int)),
                uncompacted == capped(replay_all_dead(Map::empty(), segs@.take(i as int))),
                total_len(index.entries()) + replay_all_dead(Map::empty(), segs@.take(i as int))
                    == segments_len(segs@.take(i as int)),
                gens@ == segs@.take(i as int).map_values(|g: Segment| g.gen),
                forall|k: Seq<char>| #[trigger]
                    index@.contains_key(k) ==> gens@.contains(index@[k].gen),
            decreases segs@.len() - i,
        {
            let seg = &segs[i];
            let ghost before = index@;
            let ghost prefix = segs@.take(i as int);
            assert(segs@.take(i + 1).drop_last() =~= prefix);
            let dead = load(seg.gen, &seg.records, &mut index);
            proof {
                lemma_replay_all_dead_nonneg(Map::empty(), prefix);
                lemma_replay_dead_nonneg(before, seg.gen, seg.records@);
                lemma_capped_add(
                    replay_all_dead(Map::empty(), prefix),
                    replay_dead(before, seg.gen, seg.records@),
                );
            }
            uncompacted = if uncompacted > u64::MAX - dead {
                u64::MAX
            } else {
                uncompacted + dead
            };
            let ghost gens_before = gens@;
            gens.push(seg.gen);
            proof {
                assert(gens@ =~= segs@.take(i + 1).map_values(|g: Segment| g.gen));
                assert forall|k: Seq<char>| #[trigger]
                    before.contains_key(k) implies gens@.contains(before[k].gen) by {
                    let j = choose|j: int|
                        0 <= j < gens_before.len() && gens_before[j] == before[k].gen;
                    assert(gens@[j] == before[k].gen);
                }
                assert(gens@[i as int] == seg.gen);
                lemma_replay_gens(before, seg.gen, seg.records@, gens@);
            }
            i = i + 1;
        }
        assert(segs@.take(segs@.len() as int) =~= segs@);
        let last: u64 = if segs.len() == 0 {
            0
        } else {
            segs[segs.len() - 1].gen
        };
        if last == u64::MAX {
            return Err(KvsError::offset_overflow());
        }
        let current_gen = last + 1;
        proof {
            assert forall|a: int| 0 <= a < gens@.len() implies gens@[a] <= last by {
                assert(gens@[a] == segs@[a].gen);
                if a < gens@.len() - 1 {
                    assert(segs@[a].gen < segs@[segs@.len() - 1].gen);
                }
            }
        }
        let ghost gens_before = gens@;
        gens.push(current_gen);
        proof {
            assert forall|k: Seq<char>| #[trigger]
                index@.contains_key(k) implies gens@.contains(index@[k].gen) by {
                let j = choose|j: int| 0 <= j < gens_before.len() && gens_before[j] == index@[k].gen;
                assert(gens@[j] == index@[k].gen);
            }
        }
        proof {
            lemma_replay_all_dead_nonneg(Map::empty(), segs@);
        }
        Ok(
            KvStore {
                index,
                gens,
                current_gen,
                writer_pos: 0,
                uncompacted,
                log_bytes: Ghost(segments_len(segs@)),
                dead_bytes: Ghost(replay_all_dead(Map::empty(), segs@)),
            },
        )
    }
}

/// The value that a `get` hands back for the command read at the index's
/// location: the value of a `Set`; anything else means that the index and
/// the log disagree.
pub fn value_of(cmd: Command) -> (r: Result<String>)
    ensures
        match cmd {
            Command::SetValue { value, .. } => (r matches Ok(v) && v@ == value@),
            Command::Remove { .. } => (r matches Err(e) && e.kind == ErrorKind::UnexpectedCommandType),
        },
{
    match cmd {
        Command::SetValue { value, .. } => Ok(value),
        Command::Remove { .. } => Err(KvsError::unexpected_command()),
    }
}

impl KvStore {
    /// `p` is the compaction of this state: live records copied in index
    /// order, back to back, into the generation after the current one.
    pub open spec fn plans(&self, p: &CompactionPlan) -> bool {
        let es = self.entries();
        &&& p.compaction_gen == self.current_gen() + 1
        &&& p.next_gen == self.current_gen() + 2
        &&& p.moves@.len() == es.len()
        &&& forall|i: int|
            0 <= i < es.len() ==> (#[trigger] p.moves@[i]).from == es[i].pos && p.moves@[i].to == (
            CommandPos { gen: p.compaction_gen, pos: live_offset(es, i) as u64, len: es[i].pos.len })
        &&& p.stale@ == self.gens()
    }

    /// `self` is `before` after the copies of `p` were made: the same keys in
    /// the same order, each at its new location, and writes going to
    /// `p.next_gen`.
    pub open spec fn compacted_from(&self, before: &KvStore, p: &CompactionPlan) -> bool {
        &&& self.entries().len() == before.entries().len()
        &&& forall|i: int|
            0 <= i < before.entries().len() ==> (#[trigger] self.entries()[i]).key@
                == before.entries()[i].key@ && self.entries()[i].pos == p.moves@[i].to
        &&& forall|i: int|
            0 <= i < before.entries().len() ==> self.index()[#[trigger] before.entries()[i].key@]
                == p.moves@[i].to
        &&& self.index().dom() == before.index().dom()
        &&& forall|k: Seq<char>| #[trigger]
            self.index().contains_key(k) ==> self.index()[k].gen == p.compaction_gen
                && self.index()[k].len == before.index()[k].len
        &&& self.current_gen() == p.next_gen
        &&& self.gens() == seq![p.compaction_gen, p.next_gen]
        &&& self.writer_pos() == 0
        &&& self.uncompacted() == 0
        &&& self.dead_bytes() == 0
        &&& self.log_bytes() == before.live_bytes()
    }

    /// The entries list each live key once, in key order, with its location,
    /// and nothing else.
    pub proof fn lemma_entries(&self)
        requires
            self.wf(),
        ensures
            forall|i: int|
                0 <= i < self.entries().len() ==> self.index().contains_key(
                    #[trigger] self.entries()[i].key@,
                ) && self.index()[self.entries()[i].key@] == self.entries()[i].pos,
            forall|k: Seq<char>|
                #[trigger] self.index().contains_key(k) ==> exists|i: int|
                    0 <= i < self.entries().len() && (#[trigger] self.entries()[i].key@) == k,
            forall|i: int, j: int|
                0 <= i < j < self.entries().len() ==> #[trigger] self.entries()[i].key@
                    != #[trigger] self.entries()[j].key@,
            forall|i: int, j: int|
                0 <= i < j < self.entries().len() ==> key_cmp(
                    #[trigger] self.entries()[i].key@,
                    #[trigger] self.entries()[j].key@,
                ) == Ordering::Less,
    {
        self.index.lemma_entries();
        assert forall|k: Seq<char>| #[trigger] self.index().contains_key(k) implies exists|i: int|
            0 <= i < self.entries().len() && (#[trigger] self.entries()[i].key@) == k by {
            let i = choose|i: int|
                0 <= i < self.index.entries().len() && (#[trigger] self.index.entries()[i].key@) == k;
            assert(self.entries()[i].key@ == k);
        }
    }

    /// The live and the dead records fit in the log, and the counter never
    /// says more than the dead bytes.
    pub proof fn lemma_bytes(&self)
        requires
            self.wf(),
        ensures
            0 <= self.dead_bytes(),
            self.live_bytes() + self.dead_bytes() <= self.log_bytes(),
            self.uncompacted() <= self.dead_bytes(),
    {
    }

    /// The generation that appends go to.
    pub fn generation(&self) -> (g: u64)
        ensures
            g == self.current_gen(),
    {
        self.current_gen
    }

    /// Records that a `Set` of `key`, `len` bytes long, was appended at the
    /// end of the current generation. Returns whether the dead bytes now
    /// exceed the compaction threshold.
    pub fn set(&mut self, key: String, len: u64) -> (r: Result<bool>)
        requires
            old(self).wf(),
        ensures
            final(self).wf(),
            r is Err <==> old(self).writer_pos() + len > u64::MAX,
            r is Err ==> r->Err_0.kind == ErrorKind::Io && *final(self) == *old(self),
            r matches Ok(due) ==> {
                &&& final(self).index() == old(self).index().insert(
                    key@,
                    CommandPos { gen: old(self).current_gen(), pos: old(self).writer_pos(), len },
                )
                &&& final(self).writer_pos() == old(self).writer_pos() + len
                &&& final(self).uncompacted() == capped(
                    old(self).uncompacted() + if old(self).index().contains_key(key@) {
                        old(self).index()[key@].len as int
                    } else {
                        0
                    },
                )
                &&& final(self).current_gen() == old(self).current_gen()
                &&& final(self).gens() == old(self).gens()
                &&& due == (final(self).uncompacted() > COMPACTION_THRESHOLD)
                &&& final(self).log_bytes() == old(self).log_bytes() + len
                &&& final(self).dead_bytes() == old(self).dead_bytes() + if old(
                    self,
                ).index().contains_key(key@) {
                    old(self).index()[key@].len as int
                } else {
                    0
                }
            },
    {
        if self.writer_pos > u64::MAX - len {
            return Err(KvsError::offset_overflow());
        }
        let pos = CommandPos { gen: self.current_gen, pos: self.writer_pos, len };
        let prev = self.index.insert(key, pos);
        self.writer_pos = self.writer_pos + len;
        proof {
            self.log_bytes@ = self.log_bytes@ + len;
        }
        if let Some(p) = prev {
            proof {
                lemma_capped_add(self.dead_bytes@, p.len as int);
                self.dead_bytes@ = self.dead_bytes@ + p.len;
            }
            self.uncompacted = if self.uncompacted > u64::MAX - p.len {
                u64::MAX
            } else {
                self.uncompacted + p.len
            };
        }
        proof {
            assert(self.gens@.contains(self.current_gen)) by {
                assert(self.gens@[self.gens@.len() - 1] == self.current_gen);
            }
        }
        Ok(self.uncompacted > COMPACTION_THRESHOLD)
    }

    /// The location of the latest `Set` of `key`, if it is live. Its
    /// generation always has a file.
    pub fn get(&self, key: &String) -> (r: Option<CommandPos>)
        requires
            self.wf(),
        ensures
            r == (if self.index().contains_key(key@) {
                Some(self.index()[key@])
            } else {
                None::<CommandPos>
            }),
            r matches Some(p) ==> self.gens().contains(p.gen),
    {
        self.index.get(key)
    }

    /// Whether `remove(key)` may go ahead: `NotFound` where `key` is not live.
    /// Nothing is to be written to the log in that case.
    pub fn check_remove(&self, key: &String) -> (r: Result<()>)
        requires
            self.wf(),
        ensures
            r is Ok <==> self.index().contains_key(key@),
            r is Err ==> r->Err_0.kind == ErrorKind::NotFound,
    {
        if self.index.contains_key(key) {
            Ok(())
        } else {
            Err(KvsError::not_found())
        }
    }

    /// Records that a `Remove` of `key`, `len` bytes long, was appended at
    /// the end of the current generation. A key that is not live gives
    /// `NotFound` and leaves everything as it was.
    pub fn remove(&mut self, key: &String, len: u64) -> (r: Result<()>)
        requires
            old(self).wf(),
        ensures
            final(self).wf(),
            r is Ok <==> old(self).index().contains_key(key@) && old(self).writer_pos() + len
                <= u64::MAX,
            !old(self).index().contains_key(key@) ==> (r matches Err(e) && e.kind
                == ErrorKind::NotFound),
            old(self).index().contains_key(key@) && r is Err ==> r->Err_0.kind == ErrorKind::Io,
            r is Err ==> *final(self) == *old(self),
            r is Ok ==> {
                &&& final(self).index() == old(self).index().remove(key@)
                &&& final(self).writer_pos() == old(self).writer_pos() + len
                &&& final(self).uncompacted() == capped(
                    old(self).uncompacted() + old(self).index()[key@].len,
                )
                &&& final(self).log_bytes() == old(self).log_bytes() + len
                &&& final(self).dead_bytes() == old(self).dead_bytes() + old(
                    self,
                ).index()[key@].len
                &&& final(self).current_gen() == old(self).current_gen()
                &&& final(self).gens() == old(self).gens()
            },
    {
        if !self.index.contains_key(key) {
            return Err(KvsError::not_found());
        }
        if self.writer_pos > u64::MAX - len {
            return Err(KvsError::offset_overflow());
        }
        let prev = self.index.remove(key);
        self.writer_pos = self.writer_pos + len;
        proof {
            self.log_bytes@ = self.log_bytes@ + len;
        }
        if let Some(p) = prev {
            proof {
                lemma_capped_add(self.dead_bytes@, p.len as int);
                self.dead_bytes@ = self.dead_bytes@ + p.len;
            }
            self.uncompacted = if self.uncompacted > u64::MAX - p.len {
                u64::MAX
            } else {
                self.uncompacted + p.len
            };
        }
        Ok(())
    }

    /// Works out the compaction of the current state. It fails only where a
    /// generation number or an offset of the compacted file would leave `u64`.
    pub fn compaction_plan(&self) -> (r: Result<CompactionPlan>)
        requires
            self.wf(),
        ensures
            r is Ok <==> self.current_gen() + 2 <= u64::MAX && live_offset(
                self.entries(),
                self.entries().len() as int,
            ) <= u64::MAX,
            r matches Ok(p) ==> self.plans(&p),
            r is Err ==> r->Err_0.kind == ErrorKind::Io,
    {
        if self.current_gen > u64::MAX - 2 {
            return Err(KvsError::offset_overflow());
        }
        let compaction_gen = self.current_gen + 1;
        let ghost es = self.entries();
        let mut moves: Vec<Move> = Vec::new();
        let mut offset: u64 = 0;
        let mut i: usize = 0;
        let n = self.index.len();
        while i < n
            invariant
                n == es.len(),
                es == self.entries(),
                i <= n,
                offset == live_offset(es, i as int),
                moves@.len() == i,
                forall|j: int|
                    0 <= j < i ==> (#[trigger] moves@[j]).from == es[j].pos && moves@[j].to == (
                    CommandPos {
                        gen: compaction_gen,
                        pos: live_offset(es, j) as u64,
                        len: es[j].pos.len,
                    }),
            decreases n - i,
        {
            let e = self.index.entry(i);
            if offset > u64::MAX - e.pos.len {
                proof {
                    lemma_live_offset_mono(es, i + 1, n as int);
                }
                return Err(KvsError::offset_overflow());
            }
            let to = CommandPos { gen: compaction_gen, pos: offset, len: e.pos.len };
            moves.push(Move { from: e.pos, to });
            offset = offset + e.pos.len;
            i = i + 1;
        }
        let stale = self.gens.clone();
        assert(stale@ =~= self.gens@);
        Ok(CompactionPlan { compaction_gen, next_gen: compaction_gen + 1, moves, stale })
    }

    /// Takes on the compaction `plan` once its copies are in place: every
    /// live key now points into `plan.compaction_gen`, writes go on in
    /// `plan.next_gen`, and the older generations are gone.
    pub fn compact(&mut self, plan: &CompactionPlan)
        requires
            old(self).wf(),
            old(self).plans(plan),
        ensures
            final(self).wf(),
            final(self).compacted_from(old(self), plan),
    {
        let n = self.index.len();
        let mut i: usize = 0;
        while i < n
            invariant
                self.index.wf(),
                old(self).plans(plan),
                n == old(self).entries().len(),
                i <= n,
                self.entries().len() == n,
                forall|j: int|
                    0 <= j < n ==> (#[trigger] self.entries()[j]).key@ == old(self).entries()[j].key@,
                forall|j: int| 0 <= j < i ==> (#[trigger] self.entries()[j]).pos == plan.moves@[j].to,
                forall|j: int| i <= j < n ==> (#[trigger] self.entries()[j]) == old(self).entries()[j],
            decreases n - i,
        {
            let ghost prev = self.entries();
            self.index.set_pos(i, plan.moves[i].to);
            assert forall|j: int| 0 <= j < i + 1 implies (#[trigger] self.entries()[j]).pos
                == plan.moves@[j].to by {
                if j < i {
                    assert(prev[j] == self.entries()[j]);
                }
            }
            assert forall|j: int| i + 1 <= j < n implies (#[trigger] self.entries()[j])
                == old(self).entries()[j] by {
                assert(prev[j] == self.entries()[j]);
            }
            i = i + 1;
        }
        let mut gens: Vec<u64> = Vec::new();
        gens.push(plan.compaction_gen);
        gens.push(plan.next_gen);
        self.gens = gens;
        self.current_gen = plan.next_gen;
        self.writer_pos = 0;
        self.uncompacted = 0;
        proof {
            self.log_bytes@ = total_len(old(self).index.entries());
            self.dead_bytes@ = 0;
            assert forall|i: int| 0 <= i < self.index.entries().len() implies (
            #[trigger] self.index.entries()[i]).pos.len == old(self).index.entries()[i].pos.len by {
                assert(self.entries()[i].pos == plan.moves@[i].to);
            }
            lemma_total_same_lens(self.index.entries(), old(self).index.entries());
            self.index.lemma_entries();
            old(self).index.lemma_entries();
            let es = self.entries();
            let os = old(self).entries();
            assert forall|k: Seq<char>| #[trigger]
                self.index@.contains_key(k) implies old(self).index@.contains_key(k)
                && self.index@[k].gen == plan.compaction_gen && self.index@[k].len == old(
                self,
            ).index@[k].len by {
                let i = choose|i: int| 0 <= i < es.len() && (#[trigger] es[i].key@) == k;
                assert(os[i].key@ == k);
                assert(es[i].pos == plan.moves@[i].to);
            }
            assert forall|k: Seq<char>| #[trigger]
                old(self).index@.contains_key(k) implies self.index@.contains_key(k) by {
                let i = choose|i: int| 0 <= i < os.len() && (#[trigger] os[i].key@) == k;
                assert(es[i].key@ == k);
            }
            assert(self.index@.dom() =~= old(self).index@.dom());
            assert forall|i: int| 0 <= i < os.len() implies self.index@[#[trigger] os[i].key@]
                == plan.moves@[i].to by {
                assert(es[i].key@ == os[i].key@);
            }
            assert(self.gens@ =~= seq![plan.compaction_gen, plan.next_gen]);
            assert forall|k: Seq<char>| #[trigger]
                self.index@.contains_key(k) implies self.gens@.contains(self.index@[k].gen) by {
                assert(self.gens@[0] == plan.compaction_gen);
            }
        }
    }
}

} // verus!
