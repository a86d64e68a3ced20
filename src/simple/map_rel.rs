use vstd::prelude::*;

use crate::row::RowFn;
use crate::delta::map_deltas;
use crate::simple::{delivered, lemma_snapshot_push, Edge, MapRel, Op, Port, Rel, System};

verus! {

/// A relation whose rows are those of `rel`, each transformed by `f`. It
/// keeps no state: each delta of `rel` is forwarded as `(f(t), d)`.
pub fn new(sys: &mut System, rel: &Rel, f: RowFn) -> (r: Rel)
    requires
        old(sys).wf(),
        old(sys).has(*rel),
        old(sys).ops().len() < usize::MAX,
        f.wf(),
    ensures
        final(sys).wf(),
        r.id() == old(sys).ops().len(),
        final(sys).ops().len() == old(sys).ops().len() + 1,
        forall|n: int| 0 <= n < old(sys).ops().len() ==> final(sys).ops()[n] == old(sys).ops()[n],
        final(sys).queue() == old(sys).queue(),
        final(sys).rows(*rel) == old(sys).rows(*rel),
        final(sys).rows(r) == final(sys).rows(*rel).map_values(|t: Seq<i64>| f.spec_apply(t)),
        final(sys).ops()[r.id() as int] == Op::Mapped(MapRel { input: rel.id(), f }),
        final(sys).edges(r.id() as int).len() == 0,
        forall|q: int| 0 <= q < old(sys).ops().len() ==> #[trigger] final(sys).edges(q) == if q == rel.id() {
            old(sys).edges(q).push((Edge { consumer: r.id(), port: Port::Input }))
        } else {
            old(sys).edges(q)
        },
        final(sys).logs() == old(sys).logs().push(
            map_deltas(delivered(old(sys).logs(), old(sys).seen(), rel.id() as int), f),
        ),
        final(sys).seen() == old(sys).seen().push(delivered(old(sys).logs(), old(sys).seen(), rel.id() as int).len()),
{
    let input = rel.index();
    let op = Op::Mapped(MapRel { input, f });
    let ghost ops0 = sys.ops();
    let ghost log = map_deltas(delivered(sys.logs(), sys.seen(), input as int), f);
    proof {
        let logs2 = sys.logs().push(log);
        let seen2 = sys.seen().push(log.len());
        assert(logs2[input as int] == sys.logs()[input as int]);
        assert(seen2[input as int] == sys.seen()[input as int]);
        assert(delivered(logs2, seen2, input as int) == delivered(sys.logs(), sys.seen(), input as int));
        assert(sys.ops().push(op)[ops0.len() as int] == op);
    }
    let id = sys.attach(op, Ghost(log));
    let r = Rel { id };
    proof {
        lemma_snapshot_push(ops0, op, rel.id() as int);
        assert(sys.ops()[id as int] == op);
    }
    r
}

} // verus!
