use vstd::prelude::*;

use crate::command::Command;
use crate::index::{CommandPos, Entry};
use crate::kv::{
    apply, live_offset, replay, replay_all, CompactionPlan, KvStore, Move, Record, Segment,
    COMPACTION_THRESHOLD,
};

verus! {

/// The key-value mapping that a run of commands leaves over `m`.
pub open spec fn contents(m: Map<Seq<char>, Seq<char>>, cmds: Seq<Command>) -> Map<
    Seq<char>,
    Seq<char>,
>
    decreases cmds.len(),
{
    if cmds.len() == 0 {
        m
    } else {
        match cmds.last() {
            Command::SetValue { key, value } => contents(m, cmds.drop_last()).insert(key@, value@),
            Command::Remove { key } => contents(m, cmds.drop_last()).remove(key@),
        }
    }
}

/// The commands of a run of records.
pub open spec fn commands(recs: Seq<Record>) -> Seq<Command> {
    recs.map_values(|r: Record| r.cmd)
}

proof fn lemma_untouched(
    m: Map<Seq<char>, Seq<char>>,
    cmds: Seq<Command>,
    later: Seq<Command>,
    k: Seq<char>,
)
    requires
        forall|i: int| 0 <= i < later.len() ==> (#[trigger] later[i]).key_view() != k,
    ensures
        contents(m, cmds + later).contains_key(k) == contents(m, cmds).contains_key(k),
        contents(m, cmds).contains_key(k) ==> contents(m, cmds + later)[k] == contents(m, cmds)[k],
    decreases later.len(),
{
    if later.len() > 0 {
        assert((cmds + later).drop_last() =~= cmds + later.drop_last());
        assert(later.last() == later[later.len() - 1]);
        lemma_untouched(m, cmds, later.drop_last(), k);
    } else {
        assert(cmds + later =~= cmds);
    }
}

/// After a `Set` of `key` to `value`, reading `key` gives `value` until a
/// later command on `key`; after a `Remove` of `key` it gives nothing.
pub proof fn lemma_last_write_wins(
    m: Map<Seq<char>, Seq<char>>,
    cmds: Seq<Command>,
    key: String,
    value: String,
    later: Seq<Command>,
)
    requires
        forall|i: int| 0 <= i < later.len() ==> (#[trigger] later[i]).key_view() != key@,
    ensures
        contents(m, cmds.push(Command::SetValue { key, value }) + later).contains_key(key@),
        contents(m, cmds.push(Command::SetValue { key, value }) + later)[key@] == value@,
        !contents(m, cmds.push(Command::Remove { key }) + later).contains_key(key@),
{
    let s = cmds.push(Command::SetValue { key, value });
    let r = cmds.push(Command::Remove { key });
    assert(s.drop_last() =~= cmds);
    assert(r.drop_last() =~= cmds);
    lemma_untouched(m, s, later, key@);
    lemma_untouched(m, r, later, key@);
}

/// Replay keeps exactly the keys whose latest command is a `Set`: the index
/// it builds has the same keys as the key-value mapping of its commands.
pub proof fn lemma_index_keys(
    mi: Map<Seq<char>, CommandPos>,
    mv: Map<Seq<char>, Seq<char>>,
    gen: u64,
    recs: Seq<Record>,
)
    requires
        mi.dom() == mv.dom(),
    ensures
        replay(mi, gen, recs).dom() == contents(mv, commands(recs)).dom(),
    decreases recs.len(),
{
    if recs.len() > 0 {
        lemma_index_keys(mi, mv, gen, recs.drop_last());
        assert(commands(recs).drop_last() =~= commands(recs.drop_last()));
        assert(commands(recs).last() == recs.last().cmd);
        let a = replay(mi, gen, recs.drop_last());
        let b = contents(mv, commands(recs.drop_last()));
        match recs.last().cmd {
            Command::SetValue { key, .. } => {
                let at = CommandPos { gen, pos: recs.last().pos, len: recs.last().len };
                assert(a.insert(key@, at).dom() =~= a.dom().insert(key@));
            },
            Command::Remove { key } => {
                assert(a.remove(key@).dom() =~= a.dom().remove(key@));
            },
        }
    }
}

/// Where record `r` of generation `gen` lies.
pub open spec fn location(gen: u64, r: Record) -> CommandPos {
    CommandPos { gen, pos: r.pos, len: r.len }
}

/// `r` is a `Set` of key `k` to value `v`.
pub open spec fn sets(r: Record, k: Seq<char>, v: Seq<char>) -> bool {
    match r.cmd {
        Command::SetValue { key, value } => key@ == k && value@ == v,
        Command::Remove { .. } => false,
    }
}

/// Some record of `recs` is a `Set` of `k` to `c[k]`, and `r[k]` is where it
/// lies.
pub open spec fn found_set(
    recs: Seq<Record>,
    gen: u64,
    r: Map<Seq<char>, CommandPos>,
    c: Map<Seq<char>, Seq<char>>,
    k: Seq<char>,
) -> bool {
    exists|i: int| 0 <= i < recs.len() && sets(recs[i], k, c[k]) && r[k] == location(gen, recs[i])
}

/// After replay, the location the index holds for a key is either the one it
/// held before, or that of a replayed `Set` of that key whose value is the
/// key's value in the mapping of the replayed commands: a read through the
/// index finds the latest value written.
pub proof fn lemma_index_points_at_value(
    mi: Map<Seq<char>, CommandPos>,
    mv: Map<Seq<char>, Seq<char>>,
    gen: u64,
    recs: Seq<Record>,
)
    ensures
        forall|k: Seq<char>| #[trigger]
            replay(mi, gen, recs).contains_key(k) ==> found_set(
                recs,
                gen,
                replay(mi, gen, recs),
                contents(mv, commands(recs)),
                k,
            ) || (mi.contains_key(k) && replay(mi, gen, recs)[k] == mi[k] && contents(
                mv,
                commands(recs),
            )[k] == mv[k]),
    decreases recs.len(),
{
    if recs.len() > 0 {
        let init = recs.drop_last();
        lemma_index_points_at_value(mi, mv, gen, init);
        assert(commands(recs).drop_last() =~= commands(init));
        assert(commands(recs).last() == recs.last().cmd);
        let last = recs.len() - 1;
        assert(recs.last() == recs[last]);
        let r0 = replay(mi, gen, init);
        let c0 = contents(mv, commands(init));
        let r1 = replay(mi, gen, recs);
        let c1 = contents(mv, commands(recs));
        assert forall|k: Seq<char>| #[trigger] r1.contains_key(k) implies found_set(
            recs,
            gen,
            r1,
            c1,
            k,
        ) || (mi.contains_key(k) && r1[k] == mi[k] && c1[k] == mv[k]) by {
            if k != recs.last().cmd.key_view() {
                assert(r0.contains_key(k));
                assert(r1[k] == r0[k]);
                assert(c1[k] == c0[k]);
                if found_set(init, gen, r0, c0, k) {
                    let i = choose|i: int|
                        0 <= i < init.len() && sets(init[i], k, c0[k]) && r0[k] == location(
                            gen,
                            init[i],
                        );
                    assert(recs[i] == init[i]);
                }
            } else {
                match recs.last().cmd {
                    Command::SetValue { key, value } => {
                        assert(sets(recs[last], k, c1[k]));
                    },
                    Command::Remove { .. } => {},
                }
            }
        }
    }
}

/// Replaying a generation's records in two runs (those found when the store
/// was opened, then those appended since) gives the index that one replay of
/// the whole file gives: reopening the store rebuilds the index it had.
pub proof fn lemma_replay_concat(
    m: Map<Seq<char>, CommandPos>,
    gen: u64,
    a: Seq<Record>,
    b: Seq<Record>,
)
    ensures
        replay(m, gen, a + b) == replay(replay(m, gen, a), gen, b),
    decreases b.len(),
{
    if b.len() == 0 {
        assert(a + b =~= a);
    } else {
        assert((a + b).drop_last() =~= a + b.drop_last());
        assert((a + b).last() == b.last());
        lemma_replay_concat(m, gen, a, b.drop_last());
    }
}

/// Reopening after records were appended to the last generation gives the
/// index that replaying those records over the index of the earlier opening
/// gives.
pub proof fn lemma_reopen_after_appends(
    m: Map<Seq<char>, CommandPos>,
    segs: Seq<Segment>,
    later: Seq<Segment>,
    appended: Seq<Record>,
)
    requires
        segs.len() > 0,
        later.len() == segs.len(),
        later.drop_last() == segs.drop_last(),
        later.last().gen == segs.last().gen,
        later.last().records@ == segs.last().records@ + appended,
    ensures
        replay_all(m, later) == replay(replay_all(m, segs), segs.last().gen, appended),
{
    lemma_replay_concat(
        replay_all(m, segs.drop_last()),
        segs.last().gen,
        segs.last().records@,
        appended,
    );
}

proof fn lemma_replay_moves(
    es: Seq<Entry>,
    moves: Seq<Move>,
    gen: u64,
    recs: Seq<Record>,
    n: int,
)
    requires
        0 <= n <= recs.len(),
        recs.len() == moves.len(),
        moves.len() == es.len(),
        forall|i: int|
            0 <= i < recs.len() ==> (#[trigger] recs[i]).cmd is SetValue && recs[i].cmd.key_view()
                == es[i].key@ && location(gen, recs[i]) == moves[i].to,
        forall|i: int, j: int|
            0 <= i < j < es.len() ==> #[trigger] es[i].key@ != #[trigger] es[j].key@,
    ensures
        forall|k: Seq<char>|
            #[trigger] replay(Map::empty(), gen, recs.take(n)).contains_key(k) <==> exists|i: int|
                0 <= i < n && es[i].key@ == k,
        forall|i: int|
            0 <= i < n ==> replay(Map::empty(), gen, recs.take(n))[#[trigger] es[i].key@]
                == moves[i].to,
    decreases n,
{
    if n > 0 {
        lemma_replay_moves(es, moves, gen, recs, n - 1);
        assert(recs.take(n).drop_last() =~= recs.take(n - 1));
        assert(recs.take(n).last() == recs[n - 1]);
        let before = replay(Map::empty(), gen, recs.take(n - 1));
        let after = replay(Map::empty(), gen, recs.take(n));
        assert(after == before.insert(es[n - 1].key@, moves[n - 1].to));
        assert forall|k: Seq<char>| #[trigger] after.contains_key(k) implies exists|i: int|
            0 <= i < n && es[i].key@ == k by {
            if k != es[n - 1].key@ {
                let i = choose|i: int| 0 <= i < n - 1 && es[i].key@ == k;
            }
        }
        assert forall|i: int| 0 <= i < n implies after[#[trigger] es[i].key@] == moves[i].to by {
            if i < n - 1 {
                assert(es[i].key@ != es[n - 1].key@);
            }
        }
    }
}

/// Reopening after a compaction rebuilds the index that compaction left:
/// the compacted file holds a `Set` of each live key, in index order, at the
/// place the plan gave it, and replaying it gives exactly the new index.
pub proof fn lemma_compacted_file_replays(
    a: KvStore,
    p: CompactionPlan,
    b: KvStore,
    recs: Seq<Record>,
)
    requires
        a.wf(),
        a.plans(&p),
        b.compacted_from(&a, &p),
        recs.len() == p.moves@.len(),
        forall|i: int|
            0 <= i < recs.len() ==> (#[trigger] recs[i]).cmd is SetValue && recs[i].cmd.key_view()
                == a.entries()[i].key@ && recs[i].pos == p.moves@[i].to.pos && recs[i].len
                == p.moves@[i].to.len,
    ensures
        replay(Map::empty(), p.compaction_gen, recs) == b.index(),
{
    let es = a.entries();
    a.lemma_entries();
    assert forall|i: int| 0 <= i < recs.len() implies location(p.compaction_gen, #[trigger] recs[i])
        == p.moves@[i].to by {}
    lemma_replay_moves(es, p.moves@, p.compaction_gen, recs, recs.len() as int);
    assert(recs.take(recs.len() as int) =~= recs);
    let r = replay(Map::empty(), p.compaction_gen, recs);
    assert forall|k: Seq<char>| r.contains_key(k) <==> b.index().contains_key(k) by {
        if r.contains_key(k) {
            let i = choose|i: int| 0 <= i < recs.len() && es[i].key@ == k;
            assert(a.index().contains_key(es[i].key@));
        }
        if b.index().contains_key(k) {
            assert(a.index().contains_key(k));
            let i = choose|i: int| 0 <= i < es.len() && (#[trigger] es[i].key@) == k;
            assert(r.contains_key(es[i].key@));
        }
    }
    assert forall|k: Seq<char>| r.contains_key(k) implies r[k] == b.index()[k] by {
        let i = choose|i: int| 0 <= i < recs.len() && es[i].key@ == k;
        assert(r[es[i].key@] == p.moves@[i].to);
        assert(b.index()[es[i].key@] == p.moves@[i].to);
    }
    assert(r =~= b.index());
}

/// What `set` and `remove` do to the index is what replay of the record they
/// appended does.
pub proof fn lemma_writes_replay(
    m: Map<Seq<char>, CommandPos>,
    gen: u64,
    key: String,
    value: String,
    pos: u64,
    len: u64,
)
    ensures
        apply(m, gen, Record { cmd: Command::SetValue { key, value }, pos, len }) == m.insert(
            key@,
            CommandPos { gen, pos, len },
        ),
        apply(m, gen, Record { cmd: Command::Remove { key }, pos, len }) == m.remove(key@),
{
}

proof fn lemma_same_lens_offset(a: Seq<Entry>, b: Seq<Entry>, i: int)
    requires
        0 <= i <= a.len(),
        a.len() == b.len(),
        forall|j: int| 0 <= j < a.len() ==> (#[trigger] a[j]).pos.len == b[j].pos.len,
    ensures
        live_offset(a, i) == live_offset(b, i),
    decreases i,
{
    if i > 0 {
        lemma_same_lens_offset(a, b, i - 1);
    }
}

/// Compacting twice with no write in between keeps the same live keys, each
/// record with its length; the second compaction copies exactly the records
/// that the first one wrote, and writes a file of the same size.
pub proof fn lemma_compaction_idempotent(
    a: KvStore,
    p: CompactionPlan,
    b: KvStore,
    q: CompactionPlan,
    c: KvStore,
)
    requires
        a.plans(&p),
        b.compacted_from(&a, &p),
        b.plans(&q),
        c.compacted_from(&b, &q),
    ensures
        c.index().dom() == a.index().dom(),
        forall|k: Seq<char>| #[trigger] c.index().contains_key(k) ==> c.index()[k].len
            == a.index()[k].len,
        q.moves@.len() == p.moves@.len(),
        forall|i: int| 0 <= i < q.moves@.len() ==> (#[trigger] q.moves@[i]).from == p.moves@[i].to,
        live_offset(b.entries(), b.entries().len() as int) == live_offset(
            a.entries(),
            a.entries().len() as int,
        ),
        live_offset(c.entries(), c.entries().len() as int) == live_offset(
            b.entries(),
            b.entries().len() as int,
        ),
{
    assert forall|i: int| 0 <= i < q.moves@.len() implies (#[trigger] q.moves@[i]).from
        == p.moves@[i].to by {
        assert(b.entries()[i].pos == p.moves@[i].to);
    }
    assert forall|j: int| 0 <= j < a.entries().len() implies (#[trigger] b.entries()[j]).pos.len
        == a.entries()[j].pos.len by {
        assert(b.entries()[j].pos == p.moves@[j].to);
    }
    assert forall|j: int| 0 <= j < b.entries().len() implies (#[trigger] c.entries()[j]).pos.len
        == b.entries()[j].pos.len by {
        assert(c.entries()[j].pos == q.moves@[j].to);
    }
    lemma_same_lens_offset(b.entries(), a.entries(), a.entries().len() as int);
    lemma_same_lens_offset(c.entries(), b.entries(), b.entries().len() as int);
}

/// Compaction leaves a log of just the live records, every live key still
/// there: the log shrinks by at least the dead bytes, so a compaction that
/// the threshold set off shrinks it by more than the threshold.
pub proof fn lemma_compaction_shrinks(a: KvStore, p: CompactionPlan, b: KvStore)
    requires
        a.wf(),
        a.plans(&p),
        b.compacted_from(&a, &p),
    ensures
        b.log_bytes() == a.live_bytes(),
        b.log_bytes() <= a.log_bytes() - a.dead_bytes(),
        a.uncompacted() > COMPACTION_THRESHOLD ==> b.log_bytes() < a.log_bytes()
            - COMPACTION_THRESHOLD,
        b.index().dom() == a.index().dom(),
{
    a.lemma_bytes();
}

} // verus!
