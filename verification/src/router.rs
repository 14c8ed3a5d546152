//! The router: single dispatch point between the actors and sole owner of
//! the shutdown decision. It forwards resolution announcements to the
//! producer and draw batches to the consumer, ignores no-ops, and ends the
//! dispatch loop on `Quit` — or when its inbound channel closes, which it
//! treats exactly like a `Quit`.

use crate::message::{Command, DrawOp, Pixel};
use vstd::prelude::*;

verus! {

/// What the router does with one received command. `None` on the way in
/// stands for a closed inbound channel.
#[derive(PartialEq, Debug)]
pub enum RouterAction {
    /// End the dispatch loop; the process is shutting down.
    Shutdown,
    /// Nothing to forward.
    Ignore,
    /// Hand the surface dimensions on to the producer.
    ForwardResolution(u32, u32),
    /// Hand the drawing work on to the consumer.
    ForwardDraw(DrawOp),
}

/// The router's dispatch decision for a single received command: `Quit` and
/// a closed channel shut the process down, `Noop` is dropped, a resolution
/// goes to the producer, and a draw batch goes to the consumer re-tagged as
/// a draw operation.
pub fn route(cmd: Option<Command>) -> (action: RouterAction)
    ensures
        (match cmd {
            None => action is Shutdown,
            Some(Command::Quit) => action is Shutdown,
            Some(Command::Noop) => action is Ignore,
            Some(Command::Resolution(w, h)) => action == RouterAction::ForwardResolution(w, h),
            Some(Command::Draw(batch)) => action matches RouterAction::ForwardDraw(
                DrawOp::Draw(v),
            ) && v@ == batch@,
        }),
{
    match cmd {
        None => RouterAction::Shutdown,
        Some(Command::Quit) => RouterAction::Shutdown,
        Some(Command::Noop) => RouterAction::Ignore,
        Some(Command::Resolution(w, h)) => RouterAction::ForwardResolution(w, h),
        Some(Command::Draw(batch)) => RouterAction::ForwardDraw(DrawOp::Draw(batch)),
    }
}

/// The resolutions the router forwards to the producer out of `cmds`, in
/// order, stopping at the first `Quit`.
pub open spec fn forwarded_resolutions(cmds: Seq<Command>) -> Seq<(u32, u32)>
    decreases cmds.len(),
{
    if cmds.len() == 0 {
        seq![]
    } else {
        match cmds[0] {
            Command::Quit => seq![],
            Command::Resolution(w, h) => seq![(w, h)] + forwarded_resolutions(cmds.drop_first()),
            _ => forwarded_resolutions(cmds.drop_first()),
        }
    }
}

/// The draw batches the router forwards to the consumer out of `cmds`, in
/// order, stopping at the first `Quit`.
pub open spec fn forwarded_draws(cmds: Seq<Command>) -> Seq<Seq<Pixel>>
    decreases cmds.len(),
{
    if cmds.len() == 0 {
        seq![]
    } else {
        match cmds[0] {
            Command::Quit => seq![],
            Command::Draw(v) => seq![v@] + forwarded_draws(cmds.drop_first()),
            _ => forwarded_draws(cmds.drop_first()),
        }
    }
}

/// Whether dispatching `cmds` runs into a `Quit` and so ends the process.
pub open spec fn observes_quit(cmds: Seq<Command>) -> bool
    decreases cmds.len(),
{
    if cmds.len() == 0 {
        false
    } else {
        cmds[0] is Quit || observes_quit(cmds.drop_first())
    }
}

/// The batch carried by each draw operation.
pub open spec fn draw_op_views(ops: Seq<DrawOp>) -> Seq<Seq<Pixel>> {
    ops.map_values(
        |op: DrawOp|
            match op {
                DrawOp::Draw(v) => v@,
                DrawOp::Noop => Seq::<Pixel>::empty(),
            },
    )
}

/// The router's dispatch loop over a whole inbound stream: every command up
/// to the first `Quit` is dispatched as `route` decides, and the loop
/// reports whether it ended on a quit. Both forwarded streams keep the
/// inbound order.
pub fn dispatch(inbound: Vec<Command>) -> (r: (Vec<(u32, u32)>, Vec<DrawOp>, bool))
    ensures
        r.0@ == forwarded_resolutions(inbound@),
        draw_op_views(r.1@) == forwarded_draws(inbound@),
        forall|i: int| 0 <= i < r.1@.len() ==> (#[trigger] r.1@[i]) matches DrawOp::Draw(_),
        r.2 == observes_quit(inbound@),
{
    let mut resolutions: Vec<(u32, u32)> = Vec::new();
    let mut draws: Vec<DrawOp> = Vec::new();
    let mut halted = false;
    let mut rest = inbound;
    while !halted && rest.len() > 0
        invariant
            halted ==> resolutions@ == forwarded_resolutions(inbound@),
            halted ==> draw_op_views(draws@) == forwarded_draws(inbound@),
            halted ==> observes_quit(inbound@),
            !halted ==> resolutions@ + forwarded_resolutions(rest@) == forwarded_resolutions(
                inbound@,
            ),
            !halted ==> draw_op_views(draws@) + forwarded_draws(rest@) == forwarded_draws(
                inbound@,
            ),
            !halted ==> observes_quit(inbound@) == observes_quit(rest@),
            forall|i: int| 0 <= i < draws@.len() ==> (#[trigger] draws@[i]) matches DrawOp::Draw(
                _,
            ),
        decreases rest@.len() + (if halted {
            0int
        } else {
            1int
        }),
    {
        let ghost prev = rest@;
        let cmd = rest.remove(0);
        proof {
            assert(rest@ =~= prev.drop_first());
        }
        match cmd {
            Command::Quit => {
                halted = true;
                proof {
                    assert(forwarded_resolutions(prev) =~= Seq::<(u32, u32)>::empty());
                    assert(forwarded_draws(prev) =~= Seq::<Seq<Pixel>>::empty());
                    assert(resolutions@ + forwarded_resolutions(prev) =~= resolutions@);
                    assert(draw_op_views(draws@) + forwarded_draws(prev) =~= draw_op_views(
                        draws@,
                    ));
                }
            },
            Command::Noop => {},
            Command::Resolution(w, h) => {
                let ghost before = resolutions@;
                resolutions.push((w, h));
                proof {
                    assert(forwarded_resolutions(prev) == seq![(w, h)]
                        + forwarded_resolutions(rest@));
                    assert(resolutions@ + forwarded_resolutions(rest@) =~= before + (seq![(w, h)]
                        + forwarded_resolutions(rest@)));
                }
            },
            Command::Draw(batch) => {
                let ghost before = draw_op_views(draws@);
                let ghost bv = batch@;
                draws.push(DrawOp::Draw(batch));
                proof {
                    assert(draw_op_views(draws@) =~= before.push(bv));
                    assert(forwarded_draws(prev) == seq![bv] + forwarded_draws(rest@));
                    assert(draw_op_views(draws@) + forwarded_draws(rest@) =~= before + (seq![bv]
                        + forwarded_draws(rest@)));
                }
            },
        }
    }
    proof {
        if !halted {
            assert(rest@.len() == 0);
            assert(resolutions@ + forwarded_resolutions(rest@) =~= resolutions@);
            assert(draw_op_views(draws@) + forwarded_draws(rest@) =~= draw_op_views(draws@));
        }
    }
    (resolutions, draws, halted)
}

/// Order preservation through the router: dispatching a stream that extends
/// a quit-free prefix forwards exactly what the prefix forwards, followed by
/// what the extension forwards — so each receiver observes messages in the
/// order they entered the channel.
pub proof fn lemma_dispatch_preserves_order(a: Seq<Command>, rest: Seq<Command>)
    requires
        !observes_quit(a),
    ensures
        forwarded_resolutions(a + rest) == forwarded_resolutions(a) + forwarded_resolutions(rest),
        forwarded_draws(a + rest) == forwarded_draws(a) + forwarded_draws(rest),
        observes_quit(a + rest) == observes_quit(rest),
    decreases a.len(),
{
    if a.len() == 0 {
        assert(a + rest =~= rest);
        assert(forwarded_resolutions(a) + forwarded_resolutions(rest) =~= forwarded_resolutions(
            rest,
        ));
        assert(forwarded_draws(a) + forwarded_draws(rest) =~= forwarded_draws(rest));
    } else {
        let tail = a.drop_first();
        assert((a + rest)[0] == a[0]);
        assert((a + rest).drop_first() =~= tail + rest);
        lemma_dispatch_preserves_order(tail, rest);
        match a[0] {
            Command::Resolution(w, h) => {
                assert(seq![(w, h)] + (forwarded_resolutions(tail) + forwarded_resolutions(rest))
                    =~= (seq![(w, h)] + forwarded_resolutions(tail)) + forwarded_resolutions(
                    rest,
                ));
            },
            Command::Draw(v) => {
                assert(seq![v@] + (forwarded_draws(tail) + forwarded_draws(rest)) =~= (seq![v@]
                    + forwarded_draws(tail)) + forwarded_draws(rest));
            },
            _ => {},
        }
    }
}

} // verus!
