//! The key-set cache: one entry point that returns a merged key set,
//! fetching from the two providers only on a cache miss.
//!
//! Reading the cache file, talking to the providers and writing the file
//! back are outside work. The cache is therefore a small state machine:
//! each step takes the outcome of the last piece of outside work and
//! answers with the next action. The driver performs the action and
//! hands the outcome back. The machine decides everything: a present,
//! well-formed cache file is returned as it is and nothing is fetched;
//! a missing or unparseable file causes exactly two fetches (the
//! credential's own identity, then the fixed system identity), one merge
//! and one write-back; a failed write still yields the merged set.

use crate::codec::{decode_key_set, decode_spec, encode_key_set, encode_spec};
use crate::keyset::{
    entries_wf, entry_wf, keyset_wf, merge_view, plain_byte, plain_seq, KeyEntry, KeySet, KeyView,
};
use vstd::prelude::*;

verus! {

/// The fixed well-known identity of the system key provider.
pub open spec fn system_identity() -> Seq<u8> {
    seq![0x73u8, 0x65u8, 0x63u8, 0x75u8, 0x72u8, 0x65u8, 0x74u8, 0x6fu8, 0x6bu8, 0x65u8, 0x6eu8, 0x40u8, 0x73u8, 0x79u8, 0x73u8, 0x74u8, 0x65u8, 0x6du8, 0x2eu8, 0x67u8, 0x73u8, 0x65u8, 0x72u8, 0x76u8, 0x69u8, 0x63u8, 0x65u8, 0x61u8, 0x63u8, 0x63u8, 0x6fu8, 0x75u8, 0x6eu8, 0x74u8, 0x2eu8, 0x63u8, 0x6fu8, 0x6du8]
}

/// The system provider identity, `securetoken@system.gserviceaccount.com`.
pub fn make_system_identity() -> (r: Vec<u8>)
    ensures
        r@ == system_identity(),
{
    let mut v: Vec<u8> = Vec::new();
    v.push(0x73);
    v.push(0x65);
    v.push(0x63);
    v.push(0x75);
    v.push(0x72);
    v.push(0x65);
    v.push(0x74);
    v.push(0x6f);
    v.push(0x6b);
    v.push(0x65);
    v.push(0x6e);
    v.push(0x40);
    v.push(0x73);
    v.push(0x79);
    v.push(0x73);
    v.push(0x74);
    v.push(0x65);
    v.push(0x6d);
    v.push(0x2e);
    v.push(0x67);
    v.push(0x73);
    v.push(0x65);
    v.push(0x72);
    v.push(0x76);
    v.push(0x69);
    v.push(0x63);
    v.push(0x65);
    v.push(0x61);
    v.push(0x63);
    v.push(0x63);
    v.push(0x6f);
    v.push(0x75);
    v.push(0x6e);
    v.push(0x74);
    v.push(0x2e);
    v.push(0x63);
    v.push(0x6f);
    v.push(0x6d);
    proof {
        assert(v@ =~= system_identity());
    }
    v
}

/// The key set a fetch answer denotes: every entry folded in, a later
/// duplicate identifier winning.
pub open spec fn set_from(entries: Seq<KeyView>) -> Seq<KeyView> {
    merge_view(Seq::<KeyView>::empty(), entries)
}

/// Model of the machine's position in the cache flow.
pub enum MachineState {
    AwaitLoad,
    AwaitServiceFetch,
    AwaitSystemFetch(Seq<KeyView>),
    AwaitSave(Seq<KeyView>),
    Done(Seq<KeyView>, bool),
    Failed,
}

/// Model of what the driver is asked to do next.
pub enum ActionView {
    ReadCache,
    Fetch(Seq<u8>),
    WriteCache(Seq<u8>),
    Finish,
}

/// Model of one piece of outside work reported back to the machine.
pub enum EventView {
    /// The cache file's bytes, or nothing when there is no file.
    CacheRead(Option<Seq<u8>>),
    /// One provider's entries, or nothing when the fetch failed.
    FetchDone(Option<Seq<KeyView>>),
    /// Whether the write-back reached the disk.
    SaveDone(bool),
}

/// The key sets a state carries are well formed.
pub open spec fn state_wf(s: MachineState) -> bool {
    match s {
        MachineState::AwaitSystemFetch(ks) => keyset_wf(ks),
        MachineState::AwaitSave(ks) => keyset_wf(ks),
        MachineState::Done(ks, _) => keyset_wf(ks),
        _ => true,
    }
}

/// One step of the cache flow: from a state and the outcome of the
/// outside work, the next state and the next action.
pub open spec fn step(email: Seq<u8>, s: MachineState, ev: EventView) -> (MachineState, ActionView) {
    match (s, ev) {
        (MachineState::AwaitLoad, EventView::CacheRead(content)) => {
            let decoded = match content {
                Some(bytes) => decode_spec(bytes),
                None => None,
            };
            match decoded {
                Some(ks) => (MachineState::Done(ks, false), ActionView::Finish),
                None => (MachineState::AwaitServiceFetch, ActionView::Fetch(email)),
            }
        },
        (MachineState::AwaitServiceFetch, EventView::FetchDone(answer)) => match answer {
            Some(entries) => if entries_wf(entries) {
                (
                    MachineState::AwaitSystemFetch(set_from(entries)),
                    ActionView::Fetch(system_identity()),
                )
            } else {
                (MachineState::Failed, ActionView::Finish)
            },
            None => (MachineState::Failed, ActionView::Finish),
        },
        (MachineState::AwaitSystemFetch(service), EventView::FetchDone(answer)) => match answer {
            Some(entries) => if entries_wf(entries) {
                let merged = merge_view(service, set_from(entries));
                (MachineState::AwaitSave(merged), ActionView::WriteCache(encode_spec(merged)))
            } else {
                (MachineState::Failed, ActionView::Finish)
            },
            None => (MachineState::Failed, ActionView::Finish),
        },
        (MachineState::AwaitSave(merged), EventView::SaveDone(ok)) => (
            MachineState::Done(merged, !ok),
            ActionView::Finish,
        ),
        _ => (MachineState::Failed, ActionView::Finish),
    }
}

/// The machine run over a whole sequence of outcomes, with every action
/// it asked for.
pub open spec fn run(email: Seq<u8>, s: MachineState, evs: Seq<EventView>) -> (
    MachineState,
    Seq<ActionView>,
)
    decreases evs.len(),
{
    if evs.len() == 0 {
        (s, Seq::<ActionView>::empty())
    } else {
        let (s1, a1) = step(email, s, evs[0]);
        let (s2, rest) = run(email, s1, evs.skip(1));
        (s2, seq![a1] + rest)
    }
}

/// One provider's answer, as the driver hands it back.
pub enum FetchOutcome {
    /// The provider's entries, as plain values.
    Fetched(Vec<KeyEntry>),
    /// The fetch failed on the network.
    NetworkFailed,
}

pub open spec fn fetch_outcome_view(o: &FetchOutcome) -> Option<Seq<KeyView>> {
    match o {
        FetchOutcome::Fetched(v) => Some(v@.map_values(|e: KeyEntry| e@)),
        FetchOutcome::NetworkFailed => None,
    }
}

pub open spec fn content_view(c: &Option<Vec<u8>>) -> Option<Seq<u8>> {
    match c {
        Some(v) => Some(v@),
        None => None,
    }
}

/// A provider fetch failed, so no merged key set can be produced.
#[derive(Clone, Copy, Debug, PartialEq, Eq, Structural)]
pub struct FetchFailed;

enum CacheState {
    AwaitLoad,
    AwaitServiceFetch,
    AwaitSystemFetch { service: KeySet },
    AwaitSave { merged: KeySet },
    Done { keys: KeySet, cache_write_failed: bool },
    Failed,
}

impl View for CacheState {
    type V = MachineState;

    closed spec fn view(&self) -> MachineState {
        match self {
            CacheState::AwaitLoad => MachineState::AwaitLoad,
            CacheState::AwaitServiceFetch => MachineState::AwaitServiceFetch,
            CacheState::AwaitSystemFetch { service } => MachineState::AwaitSystemFetch(service@),
            CacheState::AwaitSave { merged } => MachineState::AwaitSave(merged@),
            CacheState::Done { keys, cache_write_failed } => MachineState::Done(
                keys@,
                *cache_write_failed,
            ),
            CacheState::Failed => MachineState::Failed,
        }
    }
}

/// What the driver is asked to do next.
pub enum CacheAction {
    /// Read the cache file and report its bytes, or that it is missing.
    ReadCache,
    /// Fetch the named provider's key set.
    Fetch { identity: Vec<u8> },
    /// Write these bytes over the cache file.
    WriteCache { content: Vec<u8> },
    /// The flow is over; take the result.
    Finish,
}

impl View for CacheAction {
    type V = ActionView;

    closed spec fn view(&self) -> ActionView {
        match self {
            CacheAction::ReadCache => ActionView::ReadCache,
            CacheAction::Fetch { identity } => ActionView::Fetch(identity@),
            CacheAction::WriteCache { content } => ActionView::WriteCache(content@),
            CacheAction::Finish => ActionView::Finish,
        }
    }
}

fn bytes_plain(v: &Vec<u8>) -> (r: bool)
    ensures
        r == plain_seq(v@),
{
    let n = v.len();
    let mut j: usize = 0;
    while j < n
        invariant
            j <= n,
            n == v@.len(),
            forall|t: int| 0 <= t < j ==> plain_byte(#[trigger] v@[t]),
        decreases n - j,
    {
        let b = v[j];
        if !(0x20 <= b && b <= 0x7e && b != 0x22 && b != 0x5c) {
            return false;
        }
        j += 1;
    }
    true
}

/// Folds fetched entries into a key set, or reports that one of them
/// cannot stand in a cache file.
fn build_key_set(entries: Vec<KeyEntry>) -> (r: Option<KeySet>)
    ensures
        match r {
            Some(k) => entries_wf(entries@.map_values(|e: KeyEntry| e@)) && k.wf() && k@
                == set_from(entries@.map_values(|e: KeyEntry| e@)),
            None => !entries_wf(entries@.map_values(|e: KeyEntry| e@)),
        },
{
    let ghost ev = entries@.map_values(|e: KeyEntry| e@);
    let mut ks = KeySet::new();
    let n = entries.len();
    let mut i: usize = 0;
    while i < n
        invariant
            i <= n,
            n == entries@.len(),
            ev == entries@.map_values(|e: KeyEntry| e@),
            forall|t: int| 0 <= t < i ==> entry_wf(#[trigger] ev[t]),
            ks.wf(),
            ks@ == merge_view(Seq::<KeyView>::empty(), ev.take(i as int)),
        decreases n - i,
    {
        let e = entries[i].duplicate();
        if !(bytes_plain(&e.kid) && bytes_plain(&e.alg) && bytes_plain(&e.material)) {
            proof {
                assert(!entry_wf(ev[i as int]));
            }
            return None;
        }
        proof {
            crate::keyset::lemma_merge_push(
                Seq::<KeyView>::empty(),
                ev.take(i as int),
                ev[i as int],
            );
            assert(ev.take(i as int).push(ev[i as int]) =~= ev.take(i as int + 1));
        }
        ks.insert(e);
        i += 1;
    }
    proof {
        assert(ev.take(n as int) =~= ev);
    }
    Some(ks)
}

/// The cache flow, driven step by step from outside.
pub struct KeySetCache {
    state: CacheState,
    client_email: Vec<u8>,
}

impl KeySetCache {
    pub closed spec fn state_view(&self) -> MachineState {
        self.state@
    }

    pub closed spec fn email_view(&self) -> Seq<u8> {
        self.client_email@
    }

    pub open spec fn inv(&self) -> bool {
        state_wf(self.state_view())
    }

    /// Starts the flow for the given credential identity: the first
    /// action is to read the cache file.
    pub fn new(client_email: Vec<u8>) -> (r: (KeySetCache, CacheAction))
        ensures
            r.0.inv(),
            r.0.state_view() == MachineState::AwaitLoad,
            r.0.email_view() == client_email@,
            r.1@ == ActionView::ReadCache,
    {
        (KeySetCache { state: CacheState::AwaitLoad, client_email }, CacheAction::ReadCache)
    }

    /// Takes the cache file's bytes, or nothing when there is no file. A
    /// well-formed file settles the flow at once; a missing file and an
    /// unparseable one alike start the fetches.
    pub fn on_cache_read(&mut self, content: Option<Vec<u8>>) -> (a: CacheAction)
        requires
            old(self).inv(),
            old(self).state_view() is AwaitLoad,
        ensures
            final(self).inv(),
            final(self).email_view() == old(self).email_view(),
            (final(self).state_view(), a@) == step(
                old(self).email_view(),
                old(self).state_view(),
                EventView::CacheRead(content_view(&content)),
            ),
    {
        match content {
            Some(bytes) => match decode_key_set(&bytes) {
                Ok(ks) => {
                    self.state = CacheState::Done { keys: ks, cache_write_failed: false };
                    CacheAction::Finish
                },
                Err(_) => {
                    self.state = CacheState::AwaitServiceFetch;
                    CacheAction::Fetch {
                        identity: crate::keyset::clone_bytes(&self.client_email),
                    }
                },
            },
            None => {
                self.state = CacheState::AwaitServiceFetch;
                CacheAction::Fetch { identity: crate::keyset::clone_bytes(&self.client_email) }
            },
        }
    }

    /// Takes one provider's answer: the service provider's first, then
    /// the system provider's; the second answer is merged over the first
    /// (the later fetch wins on an identifier collision) and written
    /// back. A failed or unusable fetch is fatal.
    pub fn on_fetch(&mut self, outcome: FetchOutcome) -> (a: CacheAction)
        requires
            old(self).inv(),
            old(self).state_view() is AwaitServiceFetch || old(self).state_view()
                is AwaitSystemFetch,
        ensures
            final(self).inv(),
            final(self).email_view() == old(self).email_view(),
            (final(self).state_view(), a@) == step(
                old(self).email_view(),
                old(self).state_view(),
                EventView::FetchDone(fetch_outcome_view(&outcome)),
            ),
    {
        let mut st = CacheState::Failed;
        core::mem::swap(&mut st, &mut self.state);
        match st {
            CacheState::AwaitServiceFetch => match outcome {
                FetchOutcome::Fetched(entries) => match build_key_set(entries) {
                    Some(ks) => {
                        self.state = CacheState::AwaitSystemFetch { service: ks };
                        CacheAction::Fetch { identity: make_system_identity() }
                    },
                    None => {
                        self.state = CacheState::Failed;
                        CacheAction::Finish
                    },
                },
                FetchOutcome::NetworkFailed => {
                    self.state = CacheState::Failed;
                    CacheAction::Finish
                },
            },
            CacheState::AwaitSystemFetch { service } => match outcome {
                FetchOutcome::Fetched(entries) => match build_key_set(entries) {
                    Some(ks) => {
                        let merged = service.merge(&ks);
                        let content = encode_key_set(&merged);
                        self.state = CacheState::AwaitSave { merged };
                        CacheAction::WriteCache { content }
                    },
                    None => {
                        self.state = CacheState::Failed;
                        CacheAction::Finish
                    },
                },
                FetchOutcome::NetworkFailed => {
                    self.state = CacheState::Failed;
                    CacheAction::Finish
                },
            },
            _ => {
                self.state = CacheState::Failed;
                CacheAction::Finish
            },
        }
    }

    /// Takes the outcome of the write-back. The merged set is the result
    /// either way; a failed write is only reported, not fatal.
    pub fn on_save(&mut self, ok: bool) -> (a: CacheAction)
        requires
            old(self).inv(),
            old(self).state_view() is AwaitSave,
        ensures
            final(self).inv(),
            final(self).email_view() == old(self).email_view(),
            (final(self).state_view(), a@) == step(
                old(self).email_view(),
                old(self).state_view(),
                EventView::SaveDone(ok),
            ),
    {
        let mut st = CacheState::Failed;
        core::mem::swap(&mut st, &mut self.state);
        match st {
            CacheState::AwaitSave { merged } => {
                self.state = CacheState::Done { keys: merged, cache_write_failed: !ok };
                CacheAction::Finish
            },
            _ => {
                self.state = CacheState::Failed;
                CacheAction::Finish
            },
        }
    }

    /// The settled flow's result: the key set to use, with a note when
    /// the write-back failed, or the fatal fetch error.
    pub fn into_result(self) -> (r: Result<(KeySet, bool), FetchFailed>)
        requires
            self.inv(),
            self.state_view() is Done || self.state_view() is Failed,
        ensures
            match r {
                Ok((ks, write_failed)) => self.state_view() == MachineState::Done(
                    ks@,
                    write_failed,
                ) && ks.wf(),
                Err(_) => self.state_view() is Failed,
            },
    {
        match self.state {
            CacheState::Done { keys, cache_write_failed } => Ok((keys, cache_write_failed)),
            _ => Err(FetchFailed),
        }
    }
}

/// An unparseable cache file steps the machine exactly as a missing one:
/// same next state, same next action.
pub proof fn lemma_unparseable_like_missing(email: Seq<u8>, bytes: Seq<u8>)
    requires
        decode_spec(bytes) is None,
    ensures
        step(email, MachineState::AwaitLoad, EventView::CacheRead(Some(bytes))) == step(
            email,
            MachineState::AwaitLoad,
            EventView::CacheRead(None),
        ),
{
}

/// A valid cache file settles the flow at once: the one event is the
/// read, the one action is to finish, nothing is fetched and nothing is
/// written, and the loaded set is returned unchanged.
pub proof fn lemma_cache_hit_run(email: Seq<u8>, ks: Seq<KeyView>)
    requires
        keyset_wf(ks),
    ensures
        run(email, MachineState::AwaitLoad, seq![EventView::CacheRead(Some(encode_spec(ks)))]) == (
            MachineState::Done(ks, false),
            seq![ActionView::Finish],
        ),
{
    crate::codec::lemma_encode_decode(ks);
    let evs = seq![EventView::CacheRead(Some(encode_spec(ks)))];
    assert(evs.skip(1) =~= Seq::<EventView>::empty());
    assert(run(email, MachineState::Done(ks, false), evs.skip(1)) == (
        MachineState::Done(ks, false),
        Seq::<ActionView>::empty(),
    ));
    assert(seq![ActionView::Finish] + Seq::<ActionView>::empty() =~= seq![ActionView::Finish]);
}

/// On a cache miss the whole flow asks for exactly two fetches, the
/// service identity first and the fixed system identity second, then one
/// write of the merged set's encoding, whether or not that write
/// succeeds; the merged set (later fetch winning) is the result.
pub proof fn lemma_cache_miss_run(
    email: Seq<u8>,
    content: Option<Seq<u8>>,
    a: Seq<KeyView>,
    b: Seq<KeyView>,
    saved: bool,
)
    requires
        content matches Some(bytes) ==> decode_spec(bytes) is None,
        entries_wf(a),
        entries_wf(b),
    ensures
        run(
            email,
            MachineState::AwaitLoad,
            seq![
                EventView::CacheRead(content),
                EventView::FetchDone(Some(a)),
                EventView::FetchDone(Some(b)),
                EventView::SaveDone(saved),
            ],
        ) == (
            MachineState::Done(merge_view(set_from(a), set_from(b)), !saved),
            seq![
                ActionView::Fetch(email),
                ActionView::Fetch(system_identity()),
                ActionView::WriteCache(encode_spec(merge_view(set_from(a), set_from(b)))),
                ActionView::Finish,
            ],
        ),
{
    let m = merge_view(set_from(a), set_from(b));
    let e0 = EventView::CacheRead(content);
    let e1 = EventView::FetchDone(Some(a));
    let e2 = EventView::FetchDone(Some(b));
    let e3 = EventView::SaveDone(saved);
    let evs = seq![e0, e1, e2, e3];
    let evs1 = seq![e1, e2, e3];
    let evs2 = seq![e2, e3];
    let evs3 = seq![e3];
    assert(evs.skip(1) =~= evs1);
    assert(evs1.skip(1) =~= evs2);
    assert(evs2.skip(1) =~= evs3);
    assert(evs3.skip(1) =~= Seq::<EventView>::empty());
    let s1 = MachineState::AwaitServiceFetch;
    let s2 = MachineState::AwaitSystemFetch(set_from(a));
    let s3 = MachineState::AwaitSave(m);
    let s4 = MachineState::Done(m, !saved);
    assert(step(email, MachineState::AwaitLoad, e0) == (s1, ActionView::Fetch(email)));
    assert(step(email, s1, e1) == (s2, ActionView::Fetch(system_identity())));
    assert(step(email, s2, e2) == (s3, ActionView::WriteCache(encode_spec(m))));
    assert(step(email, s3, e3) == (s4, ActionView::Finish));
    assert(run(email, s4, Seq::<EventView>::empty()) == (s4, Seq::<ActionView>::empty()));
    assert(run(email, s3, evs3) == (s4, seq![ActionView::Finish] + Seq::<ActionView>::empty()));
    assert(run(email, s2, evs2) == (
        s4,
        seq![ActionView::WriteCache(encode_spec(m))] + (seq![ActionView::Finish]
            + Seq::<ActionView>::empty()),
    ));
    assert(run(email, s1, evs1) == (
        s4,
        seq![ActionView::Fetch(system_identity())] + (seq![ActionView::WriteCache(
            encode_spec(m),
        )] + (seq![ActionView::Finish] + Seq::<ActionView>::empty())),
    ));
    assert(seq![ActionView::Fetch(email)] + (seq![ActionView::Fetch(system_identity())] + (seq![
        ActionView::WriteCache(encode_spec(m)),
    ] + (seq![ActionView::Finish] + Seq::<ActionView>::empty()))) =~= seq![
        ActionView::Fetch(email),
        ActionView::Fetch(system_identity()),
        ActionView::WriteCache(encode_spec(m)),
        ActionView::Finish,
    ]);
}

} // verus!
