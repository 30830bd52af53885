//! The remote list synchronizer for a MikroTik device.
//!
//! The synchronizer is a state machine: it names the next remote command
//! to run (clear the list, apply one batch of add directives, or pause
//! between batches), and advances on the reported outcome.  The caller
//! performs the remote invocations and feeds the outcomes back, so the
//! protocol itself is verified while the transport stays outside.
use vstd::prelude::*;
use vstd::string::StringExecFns;
use vstd::arithmetic::div_mod::lemma_fundamental_div_mod;

verus! {

/// How many blocks one batch carries at most.
pub const DEFAULT_BATCH_SIZE: usize = 500;

/// The pause between two consecutive batches, in seconds.
pub const DEFAULT_PAUSE_SECONDS: u64 = 30;

/// The single remote directive that removes every entry of the list.
pub open spec fn clear_command_text(list: Seq<char>) -> Seq<char> {
    "/ip firewall address-list remove [find list=\""@ + list + "\"]\n"@
}

/// One add directive: the list name, one CIDR text, and the fixed
/// provenance comment.
pub open spec fn add_directive_text(list: Seq<char>, cidr: Seq<char>) -> Seq<char> {
    "/ip firewall address-list add list=\""@ + list + "\" address=\""@ + cidr
        + "\" comment=\"Auto-generated from RIPE\"\n"@
}

/// The composite script for one batch: one add directive per block,
/// in block order.
pub open spec fn add_script_text(list: Seq<char>, cidrs: Seq<Seq<char>>) -> Seq<char>
    decreases cidrs.len(),
{
    if cidrs.len() == 0 {
        Seq::empty()
    } else {
        add_script_text(list, cidrs.drop_last()) + add_directive_text(list, cidrs.last())
    }
}

/// The number of batches needed for `total` blocks in chunks of `bs`.
pub open spec fn n_batches(total: nat, bs: nat) -> nat {
    total / bs + if total % bs == 0 {
        0nat
    } else {
        1nat
    }
}

/// Where batch `i` ends: one past its last block index.
pub open spec fn batch_hi(i: nat, bs: nat, total: nat) -> nat {
    if (i + 1) * bs <= total {
        (i + 1) * bs
    } else {
        total
    }
}

pub proof fn lemma_n_batches(total: nat, bs: nat)
    requires
        bs >= 1,
    ensures
        n_batches(total, bs) * bs >= total,
        total > 0 ==> (n_batches(total, bs) - 1) * bs < total,
        total == 0 ==> n_batches(total, bs) == 0,
        n_batches(total, bs) <= total,
{
    lemma_fundamental_div_mod(total as int, bs as int);
    vstd::arithmetic::div_mod::lemma_div_nonincreasing(total as int, bs as int);
    let q = total as int / bs as int;
    let r = total as int % bs as int;
    assert(total == bs * q + r);
    if r == 0 {
        assert(n_batches(total, bs) == q);
        assert(q * bs == bs * q) by (nonlinear_arith);
        if total > 0 {
            assert((q - 1) * bs == bs * q - bs) by (nonlinear_arith);
        }
    } else {
        assert(n_batches(total, bs) == q + 1);
        assert((q + 1) * bs == bs * q + bs) by (nonlinear_arith);
        assert(q * bs == bs * q) by (nonlinear_arith);
        assert(bs >= 2);
        assert(total >= 1);
        vstd::arithmetic::div_mod::lemma_div_decreases(total as int, bs as int);
    }
}

/// The connection target and list name for one synchronization run.
pub struct MikrotikManager {
    pub host: String,
    pub username: String,
    pub list_name: String,
}

/// The phase a run is in.  A run starts in `Clearing`; `Adding(i)` and
/// `Pausing(i)` carry the index of the batch being applied or about to
/// be applied; `Completed` and `Failed` are terminal.
#[derive(Clone, Copy, PartialEq, Eq, Structural, Debug)]
pub enum SyncState {
    Clearing,
    Adding(usize),
    Pausing(usize),
    Completed,
    Failed,
}

/// The outcome the caller reports for the action it performed.
#[derive(Clone, Copy, PartialEq, Eq, Structural, Debug)]
pub enum SyncEvent {
    Succeeded,
    Failed,
    Waited,
}

/// The next outward step of a run: execute a command over a fresh remote
/// session, or suspend for the given number of seconds.
#[derive(Debug)]
pub enum SyncAction {
    RunClear(String),
    RunBatch(String),
    Wait(u64),
}

/// The state transition of one event, over the batch count `nb`.
/// Terminal states absorb every event; an event that a state does not
/// expect leaves it unchanged.
pub open spec fn step_state(st: SyncState, ev: SyncEvent, nb: nat) -> SyncState {
    match st {
        SyncState::Clearing => match ev {
            SyncEvent::Succeeded => if nb == 0 {
                SyncState::Completed
            } else {
                SyncState::Adding(0)
            },
            SyncEvent::Failed => SyncState::Failed,
            SyncEvent::Waited => st,
        },
        SyncState::Adding(i) => match ev {
            SyncEvent::Succeeded => if i + 1 == nb {
                SyncState::Completed
            } else {
                SyncState::Pausing((i + 1) as usize)
            },
            SyncEvent::Failed => SyncState::Failed,
            SyncEvent::Waited => st,
        },
        SyncState::Pausing(j) => match ev {
            SyncEvent::Waited => SyncState::Adding(j),
            _ => st,
        },
        SyncState::Completed => st,
        SyncState::Failed => st,
    }
}

/// How many blocks are on the remote list after one event, given how
/// many were before.
pub open spec fn step_applied(
    st: SyncState,
    ev: SyncEvent,
    applied: nat,
    bs: nat,
    total: nat,
) -> nat {
    match st {
        SyncState::Adding(i) => match ev {
            SyncEvent::Succeeded => batch_hi(i as nat, bs, total),
            _ => applied,
        },
        _ => applied,
    }
}

/// The state after a whole event sequence.
pub open spec fn run_state(st: SyncState, evs: Seq<SyncEvent>, nb: nat) -> SyncState
    decreases evs.len(),
{
    if evs.len() == 0 {
        st
    } else {
        run_state(step_state(st, evs[0], nb), evs.drop_first(), nb)
    }
}

/// A failed run stays failed, whatever else is reported.
pub proof fn lemma_failed_absorbing(evs: Seq<SyncEvent>, nb: nat)
    ensures
        run_state(SyncState::Failed, evs, nb) == SyncState::Failed,
    decreases evs.len(),
{
    if evs.len() == 0 {
    } else {
        lemma_failed_absorbing(evs.drop_first(), nb);
    }
}

/// The event sequence of a fully successful run from batch `i` on:
/// each batch's success, with the pause outcome before every batch but
/// batch `i` itself.
pub open spec fn success_tail(i: nat, nb: nat) -> Seq<SyncEvent>
    decreases nb - i,
{
    if i + 1 >= nb {
        seq![SyncEvent::Succeeded]
    } else {
        seq![SyncEvent::Succeeded, SyncEvent::Waited] + success_tail(i + 1, nb)
    }
}

/// The events of a fully successful run: the clear outcome, then every
/// batch's outcome with the pauses in between.
pub open spec fn success_events(nb: nat) -> Seq<SyncEvent> {
    if nb == 0 {
        seq![SyncEvent::Succeeded]
    } else {
        seq![SyncEvent::Succeeded] + success_tail(0, nb)
    }
}

pub proof fn lemma_success_tail(i: nat, nb: nat)
    requires
        i < nb <= usize::MAX,
    ensures
        run_state(SyncState::Adding(i as usize), success_tail(i, nb), nb) == SyncState::Completed,
    decreases nb - i,
{
    let evs = success_tail(i, nb);
    if i + 1 >= nb {
        assert(evs == seq![SyncEvent::Succeeded]);
        assert(step_state(SyncState::Adding(i as usize), evs[0], nb) == SyncState::Completed);
        assert(evs.drop_first() =~= Seq::<SyncEvent>::empty());
        assert(run_state(SyncState::Adding(i as usize), evs, nb) == run_state(
            SyncState::Completed,
            evs.drop_first(),
            nb,
        ));
        assert(run_state(SyncState::Completed, Seq::<SyncEvent>::empty(), nb)
            == SyncState::Completed);
    } else {
        let rest = success_tail(i + 1, nb);
        assert(evs == seq![SyncEvent::Succeeded, SyncEvent::Waited] + rest);
        assert(evs[0] == SyncEvent::Succeeded);
        assert(step_state(SyncState::Adding(i as usize), evs[0], nb) == SyncState::Pausing(
            (i + 1) as usize,
        ));
        let evs1 = evs.drop_first();
        assert(evs1[0] == SyncEvent::Waited);
        assert(step_state(SyncState::Pausing((i + 1) as usize), evs1[0], nb) == SyncState::Adding(
            (i + 1) as usize,
        ));
        assert(evs1.drop_first() =~= rest);
        assert(run_state(SyncState::Adding(i as usize), evs, nb) == run_state(
            SyncState::Pausing((i + 1) as usize),
            evs1,
            nb,
        ));
        assert(run_state(SyncState::Pausing((i + 1) as usize), evs1, nb) == run_state(
            SyncState::Adding((i + 1) as usize),
            evs1.drop_first(),
            nb,
        ));
        lemma_success_tail(i + 1, nb);
    }
}

/// A run in which the clear command and every batch succeed ends
/// `Completed`.
pub proof fn lemma_success_run(nb: nat)
    requires
        nb <= usize::MAX,
    ensures
        run_state(SyncState::Clearing, success_events(nb), nb) == SyncState::Completed,
{
    let evs = success_events(nb);
    if nb == 0 {
        assert(step_state(SyncState::Clearing, evs[0], nb) == SyncState::Completed);
        assert(evs.drop_first() =~= Seq::<SyncEvent>::empty());
        assert(run_state(SyncState::Clearing, evs, nb) == run_state(
            SyncState::Completed,
            evs.drop_first(),
            nb,
        ));
        assert(run_state(SyncState::Completed, Seq::<SyncEvent>::empty(), nb)
            == SyncState::Completed);
    } else {
        assert(step_state(SyncState::Clearing, evs[0], nb) == SyncState::Adding(0));
        assert(evs.drop_first() =~= success_tail(0, nb));
        assert(run_state(SyncState::Clearing, evs, nb) == run_state(
            SyncState::Adding(0),
            evs.drop_first(),
            nb,
        ));
        lemma_success_tail(0, nb);
    }
}

/// If the clear command fails, the run ends `Failed` and is never in an
/// `Adding` state, so no add-batch command is ever issued.
pub proof fn lemma_clear_failure_no_batches(evs: Seq<SyncEvent>, nb: nat)
    requires
        evs.len() >= 1,
        evs[0] is Failed,
    ensures
        run_state(SyncState::Clearing, evs, nb) is Failed,
        forall|k: int|
            0 <= k <= evs.len() ==> !(#[trigger] run_state(SyncState::Clearing, evs.take(k), nb)
                is Adding),
{
    lemma_failed_absorbing(evs.drop_first(), nb);
    assert forall|k: int| 0 <= k <= evs.len() implies !(#[trigger] run_state(
        SyncState::Clearing,
        evs.take(k),
        nb,
    ) is Adding) by {
        let p = evs.take(k);
        if k > 0 {
            assert(p[0] == evs[0]);
            assert(step_state(SyncState::Clearing, p[0], nb) == SyncState::Failed);
            lemma_failed_absorbing(p.drop_first(), nb);
        }
    }
}

impl MikrotikManager {
    pub fn new(host: String, username: String, list_name: String) -> (m: MikrotikManager)
        ensures
            m.host@ == host@,
            m.username@ == username@,
            m.list_name@ == list_name@,
    {
        MikrotikManager { host, username, list_name }
    }

    /// The exact clear command for this target's list.
    pub fn build_clear_command(&self) -> (r: String)
        ensures
            r@ == clear_command_text(self.list_name@),
    {
        let mut s = String::new();
        s.append("/ip firewall address-list remove [find list=\"");
        s.append(self.list_name.as_str());
        s.append("\"]\n");
        proof {
            assert(s@ =~= clear_command_text(self.list_name@));
        }
        s
    }

    /// The composite script that adds every given CIDR text to this
    /// target's list, one directive per block.
    pub fn build_add_commands(&self, cidrs: &[String]) -> (r: String)
        ensures
            r@ == add_script_text(self.list_name@, cidrs@.map_values(|t: String| t@)),
    {
        let ghost views = cidrs@.map_values(|t: String| t@);
        let mut s = String::new();
        let mut i: usize = 0;
        proof {
            assert(views.take(0) =~= Seq::<Seq<char>>::empty());
            assert(s@ =~= add_script_text(self.list_name@, views.take(0)));
        }
        while i < cidrs.len()
            invariant
                i <= cidrs@.len(),
                views == cidrs@.map_values(|t: String| t@),
                s@ == add_script_text(self.list_name@, views.take(i as int)),
            decreases cidrs@.len() - i,
        {
            let ghost pre = s@;
            s.append("/ip firewall address-list add list=\"");
            s.append(self.list_name.as_str());
            s.append("\" address=\"");
            s.append(cidrs[i].as_str());
            s.append("\" comment=\"Auto-generated from RIPE\"\n");
            proof {
                assert(cidrs@[i as int]@ == views[i as int]);
                assert(s@ =~= pre + add_directive_text(self.list_name@, views[i as int]));
                assert(views.take(i + 1).drop_last() =~= views.take(i as int));
                assert(views.take(i + 1).last() == views[i as int]);
                assert(add_script_text(self.list_name@, views.take(i + 1)) == add_script_text(
                    self.list_name@,
                    views.take(i as int),
                ) + add_directive_text(self.list_name@, views[i as int]));
            }
            i += 1;
        }
        proof {
            assert(views.take(views.len() as int) =~= views);
        }
        s
    }

    /// Prepares a synchronization run that replaces the target list's
    /// contents with the given blocks, in batches of the default size
    /// with the default pause between them.
    pub fn update_address_list(&self, cidrs: &[String]) -> (run: Synchronizer)
        ensures
            run.wf(),
            run.state == SyncState::Clearing,
            run.applied == 0,
            run.manager == *self,
            run.cidrs@ == cidrs@,
            run.batch_size == DEFAULT_BATCH_SIZE,
            run.pause_seconds == DEFAULT_PAUSE_SECONDS,
    {
        let mgr = MikrotikManager {
            host: self.host.clone(),
            username: self.username.clone(),
            list_name: self.list_name.clone(),
        };
        let mut cs: Vec<String> = Vec::new();
        let mut k: usize = 0;
        proof {
            assert(cs@ =~= cidrs@.take(0));
        }
        while k < cidrs.len()
            invariant
                k <= cidrs@.len(),
                cs@ == cidrs@.take(k as int),
            decreases cidrs@.len() - k,
        {
            let item: &String = &cidrs[k];
            let copy = item.clone();
            proof {
                assert(cs@.push(copy) =~= cidrs@.take(k + 1));
            }
            cs.push(copy);
            k += 1;
        }
        proof {
            assert(cidrs@.take(cidrs@.len() as int) =~= cidrs@);
        }
        Synchronizer::new(mgr, cs, DEFAULT_BATCH_SIZE, DEFAULT_PAUSE_SECONDS)
    }
}

/// One synchronization run: the immutable target, the normalized blocks,
/// the batching parameters, the current phase, and how many blocks are
/// already on the remote list.
pub struct Synchronizer {
    pub manager: MikrotikManager,
    pub cidrs: Vec<String>,
    pub batch_size: usize,
    pub pause_seconds: u64,
    pub state: SyncState,
    pub applied: usize,
}

impl Synchronizer {
    /// The number of blocks to apply.
    pub open spec fn total(self) -> nat {
        self.cidrs@.len()
    }

    /// The number of batches this run issues when every command succeeds.
    pub open spec fn nb(self) -> nat {
        n_batches(self.total(), self.batch_size as nat)
    }

    /// The texts of the blocks this run has put on the remote list: after
    /// the clear succeeded, always a prefix of the planned blocks.
    pub open spec fn remote_blocks(self) -> Seq<Seq<char>> {
        self.cidrs@.map_values(|t: String| t@).take(self.applied as int)
    }

    /// A consistent run: the batch size is positive and the applied count
    /// matches the phase (whole batches only, everything on completion).
    pub open spec fn wf(self) -> bool {
        &&& self.batch_size >= 1
        &&& match self.state {
            SyncState::Clearing => self.applied == 0,
            SyncState::Adding(i) => (i as nat) < self.nb() && self.applied as nat == (i as nat)
                * (self.batch_size as nat) && self.applied as nat <= self.total(),
            SyncState::Pausing(j) => 1 <= (j as nat) < self.nb() && self.applied as nat == (
            j as nat) * (self.batch_size as nat) && self.applied as nat <= self.total(),
            SyncState::Completed => self.applied as nat == self.total(),
            SyncState::Failed => self.applied as nat <= self.total(),
        }
    }

    /// Starts a run in `Clearing`: nothing is applied yet.
    pub fn new(
        manager: MikrotikManager,
        cidrs: Vec<String>,
        batch_size: usize,
        pause_seconds: u64,
    ) -> (s: Synchronizer)
        requires
            batch_size >= 1,
        ensures
            s.wf(),
            s.manager == manager,
            s.cidrs == cidrs,
            s.batch_size == batch_size,
            s.pause_seconds == pause_seconds,
            s.state == SyncState::Clearing,
            s.applied == 0,
    {
        Synchronizer {
            manager,
            cidrs,
            batch_size,
            pause_seconds,
            state: SyncState::Clearing,
            applied: 0,
        }
    }

    /// How many blocks the run has applied to the remote list so far.
    pub fn applied_count(&self) -> (n: usize)
        ensures
            n == self.applied,
    {
        self.applied
    }

    /// The run's current phase.
    pub fn state(&self) -> (st: SyncState)
        ensures
            st == self.state,
    {
        self.state
    }

    /// The next outward step, or `None` once the run is terminal: the
    /// clear command in `Clearing`, batch `i`'s composite script in
    /// `Adding(i)`, and the inter-batch pause in `Pausing`.
    pub fn next_action(&self) -> (a: Option<SyncAction>)
        requires
            self.wf(),
        ensures
            self.state is Clearing ==> a is Some && a->Some_0 is RunClear
                && a->Some_0->RunClear_0@ == clear_command_text(self.manager.list_name@),
            self.state is Adding ==> a is Some && a->Some_0 is RunBatch && a->Some_0->RunBatch_0@
                == add_script_text(
                self.manager.list_name@,
                self.cidrs@.map_values(|t: String| t@).subrange(
                    self.state->Adding_0 as int * self.batch_size as int,
                    batch_hi(
                        self.state->Adding_0 as nat,
                        self.batch_size as nat,
                        self.total(),
                    ) as int,
                ),
            ),
            self.state is Pausing ==> a == Some(SyncAction::Wait(self.pause_seconds)),
            self.state is Completed || self.state is Failed ==> a is None,
    {
        match self.state {
            SyncState::Clearing => Some(SyncAction::RunClear(self.manager.build_clear_command())),
            SyncState::Adding(i) => {
                let lo = i * self.batch_size;
                proof {
                    lemma_n_batches(self.total(), self.batch_size as nat);
                    if (i as nat) + 1 < self.nb() {
                        vstd::arithmetic::mul::lemma_mul_inequality(
                            i as int + 1,
                            self.nb() as int - 1,
                            self.batch_size as int,
                        );
                    }
                    assert((i as int + 1) * self.batch_size as int == i as int
                        * self.batch_size as int + self.batch_size as int) by (nonlinear_arith);
                }
                let rem = self.cidrs.len() - lo;
                let take = if self.batch_size < rem {
                    self.batch_size
                } else {
                    rem
                };
                let hi = lo + take;
                let batch: &[String] = &self.cidrs.as_slice()[lo..hi];
                proof {
                    assert(batch@ == self.cidrs@.subrange(lo as int, hi as int));
                    assert(batch@.map_values(|t: String| t@) =~= self.cidrs@.map_values(
                        |t: String| t@,
                    ).subrange(lo as int, hi as int));
                    assert(hi as nat == batch_hi(
                        i as nat,
                        self.batch_size as nat,
                        self.total(),
                    ));
                }
                Some(SyncAction::RunBatch(self.manager.build_add_commands(batch)))
            },
            SyncState::Pausing(_) => Some(SyncAction::Wait(self.pause_seconds)),
            SyncState::Completed => None,
            SyncState::Failed => None,
        }
    }

    /// Advances the run on the outcome of the action last handed out.
    /// A failure in `Clearing` or `Adding` is terminal and leaves the
    /// applied count where it was; a successful batch extends the remote
    /// list by exactly that batch; the pause precedes the next batch.
    pub fn handle(&mut self, ev: SyncEvent)
        requires
            old(self).wf(),
            !(old(self).state is Completed),
            !(old(self).state is Failed),
            old(self).state is Pausing <==> ev is Waited,
        ensures
            final(self).wf(),
            final(self).manager == old(self).manager,
            final(self).cidrs == old(self).cidrs,
            final(self).batch_size == old(self).batch_size,
            final(self).pause_seconds == old(self).pause_seconds,
            final(self).state == step_state(old(self).state, ev, old(self).nb()),
            final(self).applied as nat == step_applied(
                old(self).state,
                ev,
                old(self).applied as nat,
                old(self).batch_size as nat,
                old(self).total(),
            ),
            ev is Failed ==> final(self).state is Failed && final(self).applied == old(
                self,
            ).applied && final(self).remote_blocks() == old(self).remote_blocks(),
            final(self).state is Completed ==> final(self).remote_blocks() == final(self).cidrs@.map_values(|t: String| t@),
    {
        proof {
            lemma_n_batches(self.total(), self.batch_size as nat);
        }
        match self.state {
            SyncState::Clearing => {
                match ev {
                    SyncEvent::Succeeded => {
                        if self.cidrs.len() == 0 {
                            self.state = SyncState::Completed;
                        } else {
                            self.state = SyncState::Adding(0);
                        }
                    },
                    SyncEvent::Failed => {
                        self.state = SyncState::Failed;
                    },
                    SyncEvent::Waited => {
                    },
                }
            },
            SyncState::Adding(i) => {
                match ev {
                    SyncEvent::Succeeded => {
                        proof {
                            if (i as nat) + 1 < self.nb() {
                                vstd::arithmetic::mul::lemma_mul_inequality(
                                    i as int + 1,
                                    self.nb() as int - 1,
                                    self.batch_size as int,
                                );
                            }
                            assert((i as int + 1) * self.batch_size as int == i as int
                                * self.batch_size as int + self.batch_size as int)
                                by (nonlinear_arith);
                        }
                        let lo = i * self.batch_size;
                        let rem = self.cidrs.len() - lo;
                        let take = if self.batch_size < rem {
                            self.batch_size
                        } else {
                            rem
                        };
                        self.applied = lo + take;
                        if i + 1 == self.batch_count() {
                            self.state = SyncState::Completed;
                        } else {
                            self.state = SyncState::Pausing(i + 1);
                        }
                    },
                    SyncEvent::Failed => {
                        self.state = SyncState::Failed;
                    },
                    SyncEvent::Waited => {
                    },
                }
            },
            SyncState::Pausing(j) => {
                match ev {
                    SyncEvent::Waited => {
                        self.state = SyncState::Adding(j);
                    },
                    _ => {
                    },
                }
            },
            SyncState::Completed => {
            },
            SyncState::Failed => {
            },
        }
        proof {
            if self.state is Completed {
                assert(self.remote_blocks() =~= self.cidrs@.map_values(|t: String| t@));
            }
        }
    }

    /// The number of batches of this run.
    pub fn batch_count(&self) -> (n: usize)
        requires
            self.batch_size >= 1,
        ensures
            n as nat == self.nb(),
    {
        let q = self.cidrs.len() / self.batch_size;
        let r = self.cidrs.len() % self.batch_size;
        proof {
            lemma_n_batches(self.total(), self.batch_size as nat);
            vstd::arithmetic::div_mod::lemma_div_nonincreasing(
                self.total() as int,
                self.batch_size as int,
            );
            if r != 0 {
                assert(self.batch_size >= 2);
                vstd::arithmetic::div_mod::lemma_div_decreases(
                    self.total() as int,
                    self.batch_size as int,
                );
            }
        }
        if r == 0 {
            q
        } else {
            q + 1
        }
    }
}

} // verus!
