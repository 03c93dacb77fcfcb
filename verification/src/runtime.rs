//! Runtime mechanics: AP/MP budget per turn, the suspicion gauge over a sliding window of
//! observable actions, bot cooldowns, the virtual clock and the seeded builtins.

use vstd::prelude::*;
use rand::rngs::StdRng;
use rand::{Rng, SeedableRng};
use crate::config::Config;
use crate::text::{decimal, int_text, owned, push_text, string_eq};

verus! {

#[verifier::external_type_specification]
#[verifier::external_body]
pub struct ExStdRng(StdRng);

/// A budget overrun inside a `tour`.
#[derive(Debug, Clone, PartialEq, Eq)]
pub enum Fault {
    /// Not enough AP left for the requested action.
    PaInsuffisant { demande: i64, restant: i64 },
    /// Not enough MP left to move to the data.
    PmInsuffisant { demande: i64, restant: i64 },
}

/// The text of a fault, as the driver prints it.
pub open spec fn fault_text(f: Fault) -> Seq<char> {
    match f {
        Fault::PaInsuffisant { demande, restant } =>
            "PaInsuffisant — "@ + decimal(demande as int) + " PA demandés, "@
                + decimal(restant as int) + " restant(s)"@,
        Fault::PmInsuffisant { demande, restant } =>
            "PmInsuffisant — "@ + decimal(demande as int) + " PM demandés, "@
                + decimal(restant as int) + " restant(s)"@,
    }
}

impl Fault {
    /// Renders the fault, e.g. `PaInsuffisant — 7 PA demandés, 6 restant(s)`.
    pub fn message(&self) -> (s: String)
        ensures
            s@ == fault_text(*self),
    {
        let (head, d, mid, r) = match self {
            Fault::PaInsuffisant { demande, restant } =>
                ("PaInsuffisant — ", *demande, " PA demandés, ", *restant),
            Fault::PmInsuffisant { demande, restant } =>
                ("PmInsuffisant — ", *demande, " PM demandés, ", *restant),
        };
        let mut s = owned(head);
        let ds = int_text(d);
        push_text(&mut s, ds.as_str());
        push_text(&mut s, mid);
        let rs = int_text(r);
        push_text(&mut s, rs.as_str());
        push_text(&mut s, " restant(s)");
        s
    }
}

/// The suspicion gauge reached the ban threshold.
#[derive(Debug, Clone, Copy, PartialEq, Eq)]
pub struct Banned;

/// An observable action. Every `afk` shares one identity, every `up` another, and each bot
/// has its own.
#[derive(Debug, Clone)]
pub enum Action {
    Afk,
    Up,
    Bot(String),
}

/// Identity of an observable action.
pub enum ActionId {
    Afk,
    Up,
    Bot(Seq<char>),
}

impl View for Action {
    type V = ActionId;

    open spec fn view(&self) -> ActionId {
        match self {
            Action::Afk => ActionId::Afk,
            Action::Up => ActionId::Up,
            Action::Bot(name) => ActionId::Bot(name@),
        }
    }
}

fn same_action(a: &Action, b: &Action) -> (r: bool)
    ensures
        r == (a@ == b@),
{
    match (a, b) {
        (Action::Afk, Action::Afk) => true,
        (Action::Up, Action::Up) => true,
        (Action::Bot(x), Action::Bot(y)) => string_eq(x, y),
        _ => false,
    }
}

/// Abstract state of the runtime.
pub struct RuntimeView {
    pub cfg: Config,
    pub pa: i64,
    pub pm: i64,
    pub suspicion: u32,
    pub clock_ms: u64,
    pub turn: u64,
    /// Delay accumulated by `afk` since the last bot call or `up`.
    pub pending_ms: u64,
    /// The last observable actions, oldest first, with their delay bucket.
    pub window: Seq<(ActionId, u64)>,
    /// Bot name and first turn at which it can be cast again.
    pub cooldowns: Seq<(Seq<char>, u64)>,
    /// Variables already reached this turn (their MP is paid).
    pub touched: Seq<u64>,
    /// Messages shown by `up`, in order.
    pub out: Seq<Seq<char>>,
}

/// Shared execution state: all the mechanics of the language live here.
pub struct Runtime {
    cfg: Config,
    pa: i64,
    pm: i64,
    suspicion: u32,
    clock_ms: u64,
    turn: u64,
    pending_ms: u64,
    window: Vec<(Action, u64)>,
    cooldowns: Vec<(String, u64)>,
    touched: Vec<u64>,
    out: Vec<String>,
    rng: StdRng,
}

impl View for Runtime {
    type V = RuntimeView;

    closed spec fn view(&self) -> RuntimeView {
        RuntimeView {
            cfg: self.cfg,
            pa: self.pa,
            pm: self.pm,
            suspicion: self.suspicion,
            clock_ms: self.clock_ms,
            turn: self.turn,
            pending_ms: self.pending_ms,
            window: self.window@.map_values(|e: (Action, u64)| (e.0@, e.1)),
            cooldowns: self.cooldowns@.map_values(|e: (String, u64)| (e.0@, e.1)),
            touched: self.touched@,
            out: self.out@.map_values(|s: String| s@),
        }
    }
}

/// Saturating addition on `u64`.
pub open spec fn sat_add64(a: u64, b: u64) -> u64 {
    if a + b > u64::MAX { u64::MAX } else { (a + b) as u64 }
}

/// The last `n` elements of a sequence.
pub open spec fn last_n<A>(s: Seq<A>, n: nat) -> Seq<A> {
    if s.len() <= n { s } else { s.subrange(s.len() - n, s.len() as int) }
}

/// Suspicion after one observable action: `+ penalite` on a collision with the window,
/// `- decay` (never below 0) otherwise; saturating at `u32::MAX`.
pub open spec fn suspicion_after(s: u32, hit: bool, cfg: Config) -> u32 {
    if hit {
        if s + cfg.penalite > u32::MAX { u32::MAX } else { (s + cfg.penalite) as u32 }
    } else {
        if s < cfg.decay { 0 } else { (s - cfg.decay) as u32 }
    }
}

/// The delay bucket of the action being recorded.
pub open spec fn current_bucket(v: RuntimeView) -> u64 {
    v.pending_ms / v.cfg.bucket_ms
}

/// State after recording an observable action in the suspicion window.
pub open spec fn recorded(v: RuntimeView, a: ActionId) -> RuntimeView {
    let e = (a, current_bucket(v));
    RuntimeView {
        suspicion: suspicion_after(v.suspicion, v.window.contains(e), v.cfg),
        window: last_n(v.window.push(e), v.cfg.fenetre as nat),
        ..v
    }
}

/// First turn at which the named bot can be cast; 0 if it was never cast.
pub open spec fn available_turn(cds: Seq<(Seq<char>, u64)>, name: Seq<char>) -> u64
    decreases cds.len(),
{
    if cds.len() == 0 {
        0
    } else if cds[0].0 == name {
        cds[0].1
    } else {
        available_turn(cds.drop_first(), name)
    }
}

/// Cooldown table after the named bot becomes available at `at`.
pub open spec fn cooldowns_set(cds: Seq<(Seq<char>, u64)>, name: Seq<char>, at: u64) -> Seq<(Seq<char>, u64)>
    decreases cds.len(),
{
    if cds.len() == 0 {
        seq![(name, at)]
    } else if cds[0].0 == name {
        cds.update(0, (name, at))
    } else {
        seq![cds[0]] + cooldowns_set(cds.drop_first(), name, at)
    }
}

/// Setting a cooldown makes exactly that bot's availability change.
/// Setting a bot's turn of availability changes it for that bot only.
pub proof fn lemma_cooldowns_set(cds: Seq<(Seq<char>, u64)>, name: Seq<char>, at: u64, other: Seq<char>)
    ensures
        available_turn(cooldowns_set(cds, name, at), other)
            == if other == name { at } else { available_turn(cds, other) },
    decreases cds.len(),
{
    if cds.len() == 0 {
        let u = seq![(name, at)];
        assert(u[0] == (name, at));
        assert(u.drop_first() =~= Seq::<(Seq<char>, u64)>::empty());
        if other != name {
            assert(available_turn(u, other) == available_turn(u.drop_first(), other));
        }
    } else if cds[0].0 == name {
        let u = cds.update(0, (name, at));
        assert(u[0] == (name, at));
        assert(u.drop_first() =~= cds.drop_first());
        if other != name {
            assert(available_turn(u, other) == available_turn(u.drop_first(), other));
            assert(available_turn(cds, other) == available_turn(cds.drop_first(), other));
        }
    } else {
        lemma_cooldowns_set(cds.drop_first(), name, at, other);
        let s = seq![cds[0]] + cooldowns_set(cds.drop_first(), name, at);
        assert(s[0] == cds[0]);
        assert(s.drop_first() =~= cooldowns_set(cds.drop_first(), name, at));
    }
}

/// A bot cast in turn `T` with cooldown `M` is ready again exactly from turn `T + M`
/// (saturating): `cd 0` leaves it ready in the same turn, and the other bots keep their
/// readiness.
pub proof fn lemma_cooldown_window(v: RuntimeView, name: Seq<char>, cd: u64, later: u64, other: Seq<char>)
    ensures
        ({
            let c = cooldowns_set(v.cooldowns, name, sat_add64(v.turn, cd));
            &&& (later >= available_turn(c, name) <==> later >= sat_add64(v.turn, cd))
            &&& (cd == 0 ==> v.turn >= available_turn(c, name))
            &&& (other != name ==> available_turn(c, other) == available_turn(v.cooldowns, other))
        }),
{
    lemma_cooldowns_set(v.cooldowns, name, sat_add64(v.turn, cd), name);
    lemma_cooldowns_set(v.cooldowns, name, sat_add64(v.turn, cd), other);
}

#[verifier::external_body]
fn rng_seeded(seed: u64) -> StdRng {
    StdRng::seed_from_u64(seed)
}

#[verifier::external_body]
fn rng_from_system() -> StdRng {
    StdRng::from_entropy()
}

/// Draws an integer in `[lo, hi]`.
#[verifier::external_body]
fn rng_between(rng: &mut StdRng, lo: i64, hi: i64) -> (r: i64)
    requires
        lo <= hi,
    ensures
        lo <= r <= hi,
{
    rng.gen_range(lo..=hi)
}

impl Runtime {
    /// Creates a runtime with a full budget. The RNG is seeded from `cfg.seed` when set.
    pub fn new(cfg: Config) -> (r: Runtime)
        ensures
            r@.cfg == cfg,
            r@.pa == cfg.max_pa,
            r@.pm == cfg.max_pm,
            r@.suspicion == 0,
            r@.clock_ms == 0,
            r@.turn == 0,
            r@.pending_ms == 0,
            r@.window.len() == 0,
            r@.cooldowns.len() == 0,
            r@.touched.len() == 0,
            r@.out.len() == 0,
    {
        let rng = match cfg.seed {
            Some(s) => rng_seeded(s),
            None => rng_from_system(),
        };
        let r = Runtime {
            pa: cfg.max_pa,
            pm: cfg.max_pm,
            suspicion: 0,
            clock_ms: 0,
            turn: 0,
            pending_ms: 0,
            window: Vec::new(),
            cooldowns: Vec::new(),
            touched: Vec::new(),
            out: Vec::new(),
            rng,
            cfg,
        };
        proof {
            assert(r@.window =~= Seq::empty());
            assert(r@.cooldowns =~= Seq::empty());
            assert(r@.out =~= Seq::empty());
        }
        r
    }

    pub fn pa(&self) -> (r: i64)
        ensures
            r == self@.pa,
    {
        self.pa
    }

    pub fn pm(&self) -> (r: i64)
        ensures
            r == self@.pm,
    {
        self.pm
    }

    pub fn suspicion(&self) -> (r: u32)
        ensures
            r == self@.suspicion,
    {
        self.suspicion
    }

    pub fn turn(&self) -> (r: u64)
        ensures
            r == self@.turn,
    {
        self.turn
    }

    pub fn clock_ms(&self) -> (r: u64)
        ensures
            r == self@.clock_ms,
    {
        self.clock_ms
    }

    pub fn config(&self) -> (r: &Config)
        ensures
            *r == self@.cfg,
    {
        &self.cfg
    }

    /// AP cost of an assignment.
    pub fn assign_pa(&self) -> (r: i64)
        ensures
            r == self@.cfg.assign_pa,
    {
        self.cfg.assign_pa
    }

    /// AP cost of an `up`.
    pub fn up_pa(&self) -> (r: i64)
        ensures
            r == self@.cfg.up_pa,
    {
        self.cfg.up_pa
    }

    /// Messages shown by `up` so far.
    pub fn output(&self) -> (r: &Vec<String>)
        ensures
            r@.map_values(|s: String| s@) == self@.out,
    {
        &self.out
    }

    /// The messages shown by `up`, taking them out of the runtime.
    pub fn into_output(self) -> (r: Vec<String>)
        ensures
            r@.map_values(|s: String| s@) == self@.out,
    {
        self.out
    }

    /// Starts a turn: the budget is refilled and the MP cache of the turn is emptied.
    pub fn start_turn(&mut self)
        ensures
            final(self)@ == (RuntimeView {
                pa: old(self)@.cfg.max_pa,
                pm: old(self)@.cfg.max_pm,
                touched: Seq::empty(),
                ..old(self)@
            }),
    {
        self.pa = self.cfg.max_pa;
        self.pm = self.cfg.max_pm;
        self.touched = Vec::new();
        proof {
            assert(self@.touched =~= Seq::empty());
        }
    }

    /// Ends the turn: the turn counter moves on.
    pub fn end_turn(&mut self)
        ensures
            final(self)@ == (RuntimeView { turn: sat_add64(old(self)@.turn, 1), ..old(self)@ }),
    {
        self.turn = self.turn.saturating_add(1);
    }

    /// Spends `n` AP; a negative `n` gives AP back.
    pub fn spend_pa(&mut self, n: i64) -> (r: Result<(), Fault>)
        requires
            old(self)@.pa - n <= i64::MAX,
        ensures
            n <= old(self)@.pa ==> r is Ok
                && final(self)@ == (RuntimeView { pa: (old(self)@.pa - n) as i64, ..old(self)@ }),
            n > old(self)@.pa ==> r == Err::<(), Fault>(Fault::PaInsuffisant { demande: n, restant: old(self)@.pa })
                && final(self)@ == old(self)@,
    {
        if n > self.pa {
            return Err(Fault::PaInsuffisant { demande: n, restant: self.pa });
        }
        self.pa = self.pa - n;
        Ok(())
    }

    /// Spends `n` MP; a negative `n` gives MP back.
    pub fn spend_pm(&mut self, n: i64) -> (r: Result<(), Fault>)
        requires
            old(self)@.pm - n <= i64::MAX,
        ensures
            n <= old(self)@.pm ==> r is Ok
                && final(self)@ == (RuntimeView { pm: (old(self)@.pm - n) as i64, ..old(self)@ }),
            n > old(self)@.pm ==> r == Err::<(), Fault>(Fault::PmInsuffisant { demande: n, restant: old(self)@.pm })
                && final(self)@ == old(self)@,
    {
        if n > self.pm {
            return Err(Fault::PmInsuffisant { demande: n, restant: self.pm });
        }
        self.pm = self.pm - n;
        Ok(())
    }

    /// Reaches a variable declared outside the current turn: 1 MP the first time in the turn,
    /// free afterwards.
    pub fn pm_touch(&mut self, var: u64) -> (r: Result<(), Fault>)
        ensures
            old(self)@.touched.contains(var) ==> r is Ok && final(self)@ == old(self)@,
            !old(self)@.touched.contains(var) && old(self)@.pm >= 1 ==> r is Ok
                && final(self)@ == (RuntimeView {
                    pm: (old(self)@.pm - 1) as i64,
                    touched: old(self)@.touched.push(var),
                    ..old(self)@
                }),
            !old(self)@.touched.contains(var) && old(self)@.pm < 1
                ==> r == Err::<(), Fault>(Fault::PmInsuffisant { demande: 1, restant: old(self)@.pm })
                && final(self)@ == old(self)@,
    {
        let mut i: usize = 0;
        while i < self.touched.len()
            invariant
                i <= self.touched.len(),
                forall|j: int| 0 <= j < i ==> self.touched@[j] != var,
            decreases self.touched.len() - i,
        {
            if self.touched[i] == var {
                return Ok(());
            }
            i += 1;
        }
        if self.pm < 1 {
            return Err(Fault::PmInsuffisant { demande: 1, restant: self.pm });
        }
        self.pm = self.pm - 1;
        self.touched.push(var);
        Ok(())
    }

    /// Records an observable action in the suspicion window, then checks the threshold.
    fn record(&mut self, a: Action) -> (r: Result<(), Banned>)
        requires
            old(self)@.cfg.bucket_ms > 0,
        ensures
            final(self)@ == recorded(old(self)@, a@),
            r is Err <==> final(self)@.suspicion >= final(self)@.cfg.seuil_ban,
    {
        let bucket = self.pending_ms / self.cfg.bucket_ms;
        let ghost e = (a@, bucket);
        let ghost before = self@;
        let mut hit = false;
        let mut i: usize = 0;
        while i < self.window.len()
            invariant
                self@ == before,
                e == (a@, bucket),
                i <= self.window.len(),
                hit == exists|j: int| 0 <= j < i && #[trigger] self@.window[j] == e,
            decreases self.window.len() - i,
        {
            let ghost wi = self@.window[i as int];
            assert(wi == (self.window@[i as int].0@, self.window@[i as int].1));
            let ghost old_hit = hit;
            let same_bucket = self.window[i].1 == bucket;
            let same_kind = same_action(&self.window[i].0, &a);
            if same_bucket && same_kind {
                hit = true;
            }
            proof {
                assert(same_bucket == (wi.1 == e.1));
                assert(same_kind == (wi.0 == e.0));
                assert(hit == (old_hit || wi == e));
                if wi == e {
                    assert(exists|j: int| 0 <= j < i + 1 && #[trigger] self@.window[j] == e);
                }
                if !hit {
                    assert forall|j: int| 0 <= j < i + 1 implies #[trigger] self@.window[j] != e by {
                        if j < i {
                        }
                    }
                }
            }
            i += 1;
        }
        proof {
            if hit {
                let j = choose|j: int| 0 <= j < i && #[trigger] self@.window[j] == e;
                assert(self@.window.contains(e));
            } else {
                assert(!self@.window.contains(e));
            }
        }
        if hit {
            self.suspicion = self.suspicion.saturating_add(self.cfg.penalite);
        } else {
            self.suspicion = self.suspicion.saturating_sub(self.cfg.decay);
        }
        self.window.push((a, bucket));
        proof {
            assert(self@.window =~= before.window.push(e));
        }
        let ghost mid = self@;
        while self.window.len() > self.cfg.fenetre
            invariant
                self@ == (RuntimeView { window: self@.window, ..mid }),
                last_n(self@.window, self.cfg.fenetre as nat) == last_n(before.window.push(e), self.cfg.fenetre as nat),
                self@.cfg == before.cfg,
            decreases self.window.len(),
        {
            let ghost w = self@.window;
            self.window.remove(0);
            proof {
                assert(self@.window =~= w.drop_first());
                assert(last_n(self@.window, self.cfg.fenetre as nat) =~= last_n(w, self.cfg.fenetre as nat));
            }
        }
        proof {
            assert(last_n(self@.window, self.cfg.fenetre as nat) == self@.window);
        }
        if self.suspicion >= self.cfg.seuil_ban {
            Err(Banned)
        } else {
            Ok(())
        }
    }

    /// `afk <ms>`: advances the virtual clock and the pending delay (no real sleep), then
    /// records the action with the current bucket. Zero or negative delays advance nothing.
    pub fn afk(&mut self, ms: i64) -> (r: Result<(), Banned>)
        requires
            old(self)@.cfg.bucket_ms > 0,
        ensures
            ({
                let d: u64 = if ms > 0 { ms as u64 } else { 0 };
                let v = RuntimeView {
                    clock_ms: sat_add64(old(self)@.clock_ms, d),
                    pending_ms: sat_add64(old(self)@.pending_ms, d),
                    ..old(self)@
                };
                final(self)@ == recorded(v, ActionId::Afk)
            }),
            r is Err <==> final(self)@.suspicion >= final(self)@.cfg.seuil_ban,
    {
        if ms > 0 {
            self.clock_ms = self.clock_ms.saturating_add(ms as u64);
            self.pending_ms = self.pending_ms.saturating_add(ms as u64);
        }
        self.record(Action::Afk)
    }

    /// `up <txt>`: shows the message, records the action, then resets the pending delay.
    pub fn up(&mut self, msg: String) -> (r: Result<(), Banned>)
        requires
            old(self)@.cfg.bucket_ms > 0,
        ensures
            final(self)@ == (RuntimeView {
                pending_ms: 0,
                ..recorded(RuntimeView { out: old(self)@.out.push(msg@), ..old(self)@ }, ActionId::Up)
            }),
            r is Err <==> final(self)@.suspicion >= final(self)@.cfg.seuil_ban,
    {
        let ghost m = msg@;
        self.out.push(msg);
        proof {
            assert(self@.out =~= old(self)@.out.push(m));
        }
        let r = self.record(Action::Up);
        self.pending_ms = 0;
        r
    }

    /// A bot is cast (observable action): records it, then resets the pending delay.
    pub fn act_bot(&mut self, name: &String) -> (r: Result<(), Banned>)
        requires
            old(self)@.cfg.bucket_ms > 0,
        ensures
            final(self)@ == (RuntimeView {
                pending_ms: 0,
                ..recorded(old(self)@, ActionId::Bot(name@))
            }),
            r is Err <==> final(self)@.suspicion >= final(self)@.cfg.seuil_ban,
    {
        let r = self.record(Action::Bot(name.clone()));
        self.pending_ms = 0;
        r
    }

    /// `cd_pret(bot)`: whether the bot is off cooldown in the current turn.
    pub fn cd_pret(&self, name: &String) -> (r: bool)
        ensures
            r == (self@.turn >= available_turn(self@.cooldowns, name@)),
    {
        let mut i: usize = 0;
        assert(self@.cooldowns.skip(0) =~= self@.cooldowns);
        while i < self.cooldowns.len()
            invariant
                i <= self.cooldowns.len(),
                available_turn(self@.cooldowns, name@) == available_turn(self@.cooldowns.skip(i as int), name@),
            decreases self.cooldowns.len() - i,
        {
            let ghost rest = self@.cooldowns.skip(i as int);
            assert(rest.drop_first() =~= self@.cooldowns.skip(i + 1));
            assert(rest[0] == (self.cooldowns@[i as int].0@, self.cooldowns@[i as int].1));
            if string_eq(&self.cooldowns[i].0, name) {
                return self.turn >= self.cooldowns[i].1;
            }
            i += 1;
        }
        proof {
            assert(self@.cooldowns.skip(i as int).len() == 0);
        }
        true
    }

    /// After a cast in turn `T` with cooldown `cd`, the bot is available again from `T + cd`.
    pub fn set_cooldown(&mut self, name: &String, cd: u64)
        ensures
            final(self)@ == (RuntimeView {
                cooldowns: cooldowns_set(old(self)@.cooldowns, name@, sat_add64(old(self)@.turn, cd)),
                ..old(self)@
            }),
    {
        let at = self.turn.saturating_add(cd);
        let ghost cds = self@.cooldowns;
        let mut i: usize = 0;
        let ghost v0 = self@;
        assert(cds.skip(0) =~= cds);
        assert(cds.take(0) + cooldowns_set(cds, name@, at) =~= cooldowns_set(cds, name@, at));
        while i < self.cooldowns.len()
            invariant
                self@ == v0,
                v0 == old(self)@,
                self@.cooldowns == cds,
                at == sat_add64(v0.turn, cd),
                i <= self.cooldowns.len(),
                forall|j: int| 0 <= j < i ==> cds[j].0 != name@,
                cooldowns_set(cds, name@, at) == cds.take(i as int) + cooldowns_set(cds.skip(i as int), name@, at),
            decreases self.cooldowns.len() - i,
        {
            let ghost rest = cds.skip(i as int);
            assert(rest[0] == (self.cooldowns@[i as int].0@, self.cooldowns@[i as int].1));
            if string_eq(&self.cooldowns[i].0, name) {
                let entry = (name.clone(), at);
                self.cooldowns.set(i, entry);
                proof {
                    assert(self@.cooldowns =~= cds.update(i as int, (name@, at)));
                    assert(cds.take(i as int) + rest.update(0, (name@, at)) =~= cds.update(i as int, (name@, at)));
                }
                return;
            }
            proof {
                assert(rest.drop_first() =~= cds.skip(i + 1));
                assert(cds.take(i as int) + (seq![rest[0]] + cooldowns_set(rest.drop_first(), name@, at))
                    =~= cds.take(i + 1) + cooldowns_set(cds.skip(i + 1), name@, at));
            }
            i += 1;
        }
        self.cooldowns.push((name.clone(), at));
        proof {
            assert(cds.skip(i as int) =~= Seq::<(Seq<char>, u64)>::empty());
            assert(cds.take(i as int) =~= cds);
            assert(self@.cooldowns =~= cds + seq![(name@, at)]);
        }
    }

    /// `rand(a, b)`: an integer between the two bounds, inclusive (bounds in either order).
    pub fn rand(&mut self, a: i64, b: i64) -> (r: i64)
        ensures
            (a <= b ==> a <= r <= b) && (b < a ==> b <= r <= a),
            final(self)@ == old(self)@,
    {
        let (lo, hi) = if a <= b { (a, b) } else { (b, a) };
        rng_between(&mut self.rng, lo, hi)
    }

    /// `butin(min, max)`: loot roll, same law as `rand`.
    pub fn butin(&mut self, min: i64, max: i64) -> (r: i64)
        ensures
            (min <= max ==> min <= r <= max) && (max < min ==> max <= r <= min),
            final(self)@ == old(self)@,
    {
        self.rand(min, max)
    }
}

} // verus!
