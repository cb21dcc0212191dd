use vstd::prelude::*;
use crate::bytecode_serializer::{BytecodeSerializer, spec_split, spec_recover, spec_frame};
use crate::errors::BytecodeSerializerError;
use crate::in_memory::InMemoryLayer;
use crate::operation::{Op, op_code, op_tuple};

verus! {

/// What one decoded record does to the materialized state: `SET` stores,
/// `DEL` removes, anything else reads only.
pub open spec fn apply_op_tuple(
    m: Map<Seq<char>, Seq<char>>,
    t: (u8, i64, Seq<char>, Option<Seq<char>>),
) -> Map<Seq<char>, Seq<char>> {
    if t.0 == 1 && t.3 is Some {
        m.insert(t.2, t.3->0)
    } else if t.0 == 4 {
        m.remove(t.2)
    } else {
        m
    }
}

/// The state after replaying the records in order: last writer wins per
/// key.
pub open spec fn replay_tuples(
    m: Map<Seq<char>, Seq<char>>,
    ts: Seq<(u8, i64, Seq<char>, Option<Seq<char>>)>,
) -> Map<Seq<char>, Seq<char>>
    decreases ts.len(),
{
    if ts.len() == 0 {
        m
    } else {
        replay_tuples(apply_op_tuple(m, ts[0]), ts.drop_first())
    }
}

/// The WAL service's routing step: a `GET` is not durable and produces no
/// bytes; every mutation becomes its complete frame.
pub fn wal_bytes_for(op: &Op) -> (r: Option<Vec<u8>>)
    ensures
        op_code(*op) == 2 ==> r is None,
        op_code(*op) != 2 ==> (r matches Some(b) && b@ == spec_frame(*op)),
{
    match op {
        Op::GET { .. } => None,
        _ => Some(op.into_bytes()),
    }
}

/// Startup replay: splits the recovered bytes into frames, decodes each,
/// and applies them to the index in file order. A frame that does not
/// decode aborts the replay with its error before anything is applied.
pub fn regenerate(store: &mut InMemoryLayer, recovered: &[u8]) -> (r: Result<
    (),
    BytecodeSerializerError,
>)
    requires
        old(store).wf(),
    ensures
        final(store).wf(),
        match spec_recover(spec_split(recovered@)) {
            Ok(ts) => r == Ok::<(), BytecodeSerializerError>(()) && final(store)@
                == replay_tuples(old(store)@, ts),
            Err(e) => r == Err::<(), BytecodeSerializerError>(e) && final(store)@ == old(
                store,
            )@,
        },
{
    let mut ops = match BytecodeSerializer::recover_from_bytes(recovered) {
        Ok(ops) => ops,
        Err(e) => {
            return Err(e);
        },
    };
    let ghost all = spec_recover(spec_split(recovered@))->Ok_0;
    proof {
        assert(ops@.map_values(|o: Op| op_tuple(o)) =~= all);
    }
    while ops.len() > 0
        invariant
            store.wf(),
            replay_tuples(store@, ops@.map_values(|o: Op| op_tuple(o))) == replay_tuples(
                old(store)@,
                all,
            ),
        decreases ops@.len(),
    {
        let ghost before = ops@;
        let op = ops.remove(0);
        proof {
            assert(ops@ =~= before.drop_first());
            assert(before.map_values(|o: Op| op_tuple(o)).drop_first() =~= ops@.map_values(
                |o: Op| op_tuple(o),
            ));
            assert(before.map_values(|o: Op| op_tuple(o))[0] == op_tuple(op));
        }
        let _ = store.eval(op);
    }
    proof {
        assert(ops@.map_values(|o: Op| op_tuple(o)).len() == 0);
    }
    Ok(())
}

} // verus!
