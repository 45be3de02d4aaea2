//! Commit observer: turns committed leaders into ordered sub-DAGs for execution.

use vstd::prelude::*;

use crate::base_committer::{Decision, LeaderStatus};
use crate::block_store::views;
use crate::data::Data;
use crate::linearizer::{linearized, CommittedSubDag, Linearizer};
use crate::types::{BlockView, StatementBlock};
use crate::universal_committer::decision_views;

verus! {

#[verifier::external_type_specification]
#[verifier::external_body]
#[verifier::reject_recursive_types(T)]
pub struct ExUnboundedSender<T>(tokio::sync::mpsc::UnboundedSender<T>);

/// Hands `subdag` to the receiving side of the observer's channel with
/// `tokio::sync::mpsc::UnboundedSender::send`. Sending fails only when the
/// receiver is gone; that result is discarded, so nothing is stated of the call.
/// Callers must hand it exactly the sub-DAG the observer recorded last.
#[verifier::external_body]
fn send_subdag(observer: &SimpleCommitObserver, subdag: CommittedSubDag)
    requires
        observer.sent().len() > 0,
        views(subdag.blocks@) == observer.sent().last(),
{
    let _ = observer.tx.send(subdag);
}

/// Observes commit decisions (for execution, a log, ...).
pub trait CommitObserver: Send + Sync {
    /// The batches of leader statuses handed to this observer so far, oldest first.
    spec fn received(&self) -> Seq<Seq<Decision>>;

    /// Handle a batch of leader statuses from the committer.
    fn handle_commit(&mut self, committed: Vec<LeaderStatus>)
        ensures
            final(self).received() == old(self).received().push(decision_views(committed@)),
    ;
}

/// The committed blocks among the decisions `ds`, in order.
pub open spec fn committed_blocks(ds: Seq<Decision>) -> Seq<BlockView>
    decreases ds.len(),
{
    if ds.len() == 0 {
        seq![]
    } else {
        match ds.last() {
            Decision::Commit(b) => committed_blocks(ds.drop_last()).push(b),
            _ => committed_blocks(ds.drop_last()),
        }
    }
}

/// Linearizes the committed blocks of each batch and sends the sub-DAG on a channel.
pub struct SimpleCommitObserver {
    linearizer: Linearizer,
    tx: tokio::sync::mpsc::UnboundedSender<CommittedSubDag>,
    handled: Ghost<Seq<Seq<Decision>>>,
    sent: Ghost<Seq<Seq<BlockView>>>,
}

impl SimpleCommitObserver {
    /// The channel the sub-DAGs are sent on.
    pub closed spec fn sender(&self) -> tokio::sync::mpsc::UnboundedSender<CommittedSubDag> {
        self.tx
    }

    /// The blocks of each sub-DAG handed to the channel so far, oldest first.
    pub closed spec fn sent(&self) -> Seq<Seq<BlockView>> {
        self.sent@
    }

    pub fn new(tx: tokio::sync::mpsc::UnboundedSender<CommittedSubDag>) -> (r: Self)
        ensures
            r.sender() == tx,
            r.received() == Seq::<Seq<Decision>>::empty(),
            r.sent() == Seq::<Seq<BlockView>>::empty(),
    {
        SimpleCommitObserver { linearizer: Linearizer::new(), tx, handled: Ghost(Seq::empty()), sent: Ghost(Seq::empty()) }
    }

    pub fn linearizer(&self) -> (r: &Linearizer) {
        &self.linearizer
    }

    /// The sub-DAG a batch yields: none when no leader of it is committed, else the
    /// linearization of the committed blocks.
    pub fn committed_subdag(&self, committed: Vec<LeaderStatus>) -> (r: Option<CommittedSubDag>)
        ensures
            r is None <==> committed_blocks(decision_views(committed@)).len() == 0,
            r matches Some(d) ==> linearized(committed_blocks(decision_views(committed@)), views(d.blocks@)),
    {
        let ghost ds = decision_views(committed@);
        let mut blocks: Vec<Data<StatementBlock>> = Vec::new();
        let mut committed = committed;
        let mut rest: Vec<LeaderStatus> = Vec::new();
        // Take the statuses from the back, then walk them front to back.
        while committed.len() > 0
            invariant
                decision_views(rest@) + decision_views(committed@).reverse() == ds.reverse(),
            decreases committed@.len(),
        {
            let ghost before_r = decision_views(rest@);
            let ghost before_c = decision_views(committed@);
            let st = committed.pop().unwrap();
            rest.push(st);
            assert(decision_views(committed@) =~= before_c.drop_last());
            assert(decision_views(rest@) =~= before_r.push(before_c.last()));
            assert(before_c.reverse() =~= seq![before_c.last()] + before_c.drop_last().reverse());
            assert(decision_views(rest@) + decision_views(committed@).reverse() =~= before_r + before_c.reverse());
        }
        assert(decision_views(committed@) =~= Seq::<Decision>::empty());
        assert(decision_views(rest@) =~= ds.reverse());
        let mut done: usize = 0;
        assert(ds.take(0) =~= Seq::<Decision>::empty());
        assert(views(blocks@) =~= Seq::<BlockView>::empty());
        assert(rest.len() == rest@.len());
        while rest.len() > 0
            invariant
                decision_views(rest@) == ds.reverse().take(ds.len() - done),
                rest@.len() + done == ds.len(),
                ds.len() <= usize::MAX,
                views(blocks@) == committed_blocks(ds.take(done as int)),
            decreases rest@.len(),
        {
            let ghost before_r = decision_views(rest@);
            let st = rest.pop().unwrap();
            proof {
                assert(st@ == before_r.last());
                assert(ds.take(done + 1).drop_last() =~= ds.take(done as int));
                assert(ds.take(done + 1).last() == ds[done as int]);
            }
            match st {
                LeaderStatus::Commit(b) => {
                    let ghost before_b = views(blocks@);
                    blocks.push(b);
                    assert(views(blocks@) =~= before_b.push(ds[done as int]->Commit_0));
                },
                _ => {},
            }
            done = done + 1;
            assert(decision_views(rest@) =~= ds.reverse().take(ds.len() - done));
        }
        assert(ds.take(ds.len() as int) =~= ds);
        if blocks.len() == 0 {
            return None;
        }
        Some(self.linearizer.linearize(blocks))
    }
}

impl CommitObserver for SimpleCommitObserver {
    closed spec fn received(&self) -> Seq<Seq<Decision>> {
        self.handled@
    }

    /// Sends the linearization of the batch's committed blocks, when it has any.
    fn handle_commit(&mut self, committed: Vec<LeaderStatus>)
        ensures
            final(self).sender() == old(self).sender(),
            committed_blocks(decision_views(committed@)).len() == 0 ==> final(self).sent() == old(self).sent(),
            committed_blocks(decision_views(committed@)).len() > 0 ==> {
                &&& final(self).sent().len() == old(self).sent().len() + 1
                &&& final(self).sent().drop_last() == old(self).sent()
                &&& linearized(committed_blocks(decision_views(committed@)), final(self).sent().last())
            },
    {
        let ghost ds = decision_views(committed@);
        self.handled = Ghost(self.handled@.push(ds));
        if let Some(subdag) = self.committed_subdag(committed) {
            let ghost blocks = views(subdag.blocks@);
            self.sent = Ghost(self.sent@.push(blocks));
            assert(self.sent@.drop_last() =~= old(self).sent@);
            send_subdag(self, subdag);
        }
    }
}

} // verus!
