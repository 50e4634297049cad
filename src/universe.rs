use vstd::prelude::*;

use crate::fade::{distance, idle_dimmer, lemma_level_final, level_at, step_count, step_interval, Dimmer};
use crate::fixture::{frame, is_frame_of, ColorLight, Fixture};

verus! {

/// How to reach the bus: the serial port, its speed and the cadence at which
/// the output driver repeats a frame when nothing asks for one earlier.
#[derive(Debug)]
pub struct TransportSettings {
    pub port: String,
    pub baud_rate: u32,
    pub refresh_ms: u64,
}

/// State of the running output driver: the settings of its transport, how
/// many fixtures it was started with, the push-now requests made of it, and
/// the transport failures reported by the thread that sends the frames.
#[derive(Debug)]
pub struct OutputDriver {
    pub settings: TransportSettings,
    pub fixture_count: usize,
    pub push_requests: u64,
    pub pending: bool,
    pub transport_errors: u64,
}

#[derive(Clone, Copy, Debug, PartialEq, Eq)]
pub enum UniverseError {
    /// No fixture carries the name given at registration.
    NoSuchFixture,
}

/// A set of named fixtures on one bus, the dimmers and colour lights built
/// on them, and the output driver when one runs.
#[derive(Debug)]
pub struct Universe {
    pub fixtures: Vec<Fixture>,
    pub colors: Vec<ColorLight>,
    pub dimmers: Vec<Dimmer>,
    pub driver: Option<OutputDriver>,
}

/// A fade of one or more dimmers, advanced one pass at a time by
/// `Universe::advance` until it completes or is stopped.
#[derive(Debug)]
pub struct Transition {
    pub fades: Vec<Dimmer>,
    pub interval_ms: u64,
    pub stopped: bool,
}

/// `ls` with level `v` on channel `ch` of fixture `fi`, when both exist.
pub open spec fn set_level(ls: Seq<Seq<u8>>, fi: int, ch: int, v: u8) -> Seq<Seq<u8>> {
    if 0 <= fi < ls.len() && 0 <= ch < ls[fi].len() {
        ls.update(fi, ls[fi].update(ch, v))
    } else {
        ls
    }
}

/// The levels after one pass over `fades`: each fade with steps left
/// writes its next level, in order.
pub open spec fn pass_levels(ls: Seq<Seq<u8>>, fades: Seq<Dimmer>) -> Seq<Seq<u8>>
    decreases fades.len(),
{
    if fades.len() == 0 {
        ls
    } else {
        let prev = pass_levels(ls, fades.drop_last());
        let d = fades.last();
        if d.fading() {
            set_level(prev, d.fixture as int, d.channel as int, d.next_level())
        } else {
            prev
        }
    }
}

/// The levels after a blackout of `ds`: each dimmer's channel goes dark.
pub open spec fn dark_levels(ls: Seq<Seq<u8>>, ds: Seq<Dimmer>) -> Seq<Seq<u8>>
    decreases ds.len(),
{
    if ds.len() == 0 {
        ls
    } else {
        set_level(dark_levels(ls, ds.drop_last()), ds.last().fixture as int, ds.last().channel as int, 0)
    }
}

/// Level of channel `ch` of fixture `fi`, or dark where there is no such
/// channel.
pub open spec fn level_in(ls: Seq<Seq<u8>>, fi: int, ch: int) -> u8 {
    if 0 <= fi < ls.len() && 0 <= ch < ls[fi].len() {
        ls[fi][ch]
    } else {
        0
    }
}

/// `d` made ready to fade from `current` over `duration_ms` milliseconds.
pub open spec fn prepared(d: Dimmer, current: u8, duration_ms: nat) -> Dimmer {
    Dimmer {
        start: current,
        steps: step_count(distance(current, d.target), duration_ms) as u64,
        taken: 0,
        ..d
    }
}

/// `after` is `before` with `x` registered under key `key`: in place of the
/// entry that had that key, or at the end.
pub open spec fn registered<T>(before: Seq<T>, after: Seq<T>, x: T, key: spec_fn(T) -> usize) -> bool {
    ||| exists|i: int|
        0 <= i < before.len() && key(before[i]) == key(x) && after == before.update(i, x)
    ||| (forall|i: int| 0 <= i < before.len() ==> key(before[i]) != key(x)) && after
        == before.push(x)
}

/// The driver after one push-now request: the request is counted (the
/// count wraps) and a frame is due.
pub open spec fn pushed(driver: Option<OutputDriver>) -> Option<OutputDriver> {
    match driver {
        Some(d) => Some(
            OutputDriver {
                push_requests: if d.push_requests == u64::MAX {
                    0
                } else {
                    (d.push_requests + 1) as u64
                },
                pending: true,
                ..d
            },
        ),
        None => None,
    }
}

impl Transition {
    pub open spec fn wf(&self) -> bool {
        forall|i: int| 0 <= i < self.fades@.len() ==> #[trigger] self.fades@[i].wf()
    }

    /// Whether some fade of the transition still has steps left.
    pub open spec fn pending(&self) -> bool {
        exists|i: int| 0 <= i < self.fades@.len() && #[trigger] self.fades@[i].fading()
    }

    /// Asks the transition to end: no pass over it writes anything from now
    /// on.
    pub fn stop(&mut self)
        ensures
            final(self).stopped,
            final(self).fades@ == old(self).fades@,
            final(self).interval_ms == old(self).interval_ms,
    {
        self.stopped = true;
    }

    /// Checks `wf`, for callers that cannot prove it.
    pub fn is_wf(&self) -> (r: bool)
        ensures
            r == self.wf(),
    {
        let mut i: usize = 0;
        while i < self.fades.len()
            invariant
                i <= self.fades@.len(),
                forall|j: int| 0 <= j < i ==> #[trigger] self.fades@[j].wf(),
            decreases self.fades@.len() - i,
        {
            if !(self.fades[i].taken <= self.fades[i].steps && self.fades[i].steps <= 255) {
                assert(!self.fades@[i as int].wf());
                return false;
            }
            i = i + 1;
        }
        true
    }
}

impl Universe {
    pub open spec fn wf(&self) -> bool {
        &&& forall|i: int, j: int|
            0 <= i < j < self.fixtures@.len() ==> #[trigger] self.fixtures@[i].name@
                != #[trigger] self.fixtures@[j].name@
        &&& forall|i: int| 0 <= i < self.dimmers@.len() ==> #[trigger] self.dimmers@[i].wf()
        &&& forall|i: int|
            0 <= i < self.dimmers@.len() ==> (#[trigger] self.dimmers@[i]).fixture
                < self.fixtures@.len()
        &&& forall|i: int, j: int|
            0 <= i < j < self.dimmers@.len() ==> #[trigger] self.dimmers@[i].fixture
                != #[trigger] self.dimmers@[j].fixture
        &&& forall|i: int|
            0 <= i < self.colors@.len() ==> (#[trigger] self.colors@[i]).fixture
                < self.fixtures@.len()
        &&& forall|i: int, j: int|
            0 <= i < j < self.colors@.len() ==> #[trigger] self.colors@[i].fixture
                != #[trigger] self.colors@[j].fixture
        &&& self.driver matches Some(d) ==> d.fixture_count <= self.fixtures@.len()
    }

    /// Two fixtures with one name are one fixture.
    pub proof fn lemma_same_name(&self, a: int, b: int)
        requires
            self.wf(),
            0 <= a < self.fixtures@.len(),
            0 <= b < self.fixtures@.len(),
            self.fixtures@[a].name@ == self.fixtures@[b].name@,
        ensures
            a == b,
    {
        if a < b {
            assert(self.fixtures@[a].name@ != self.fixtures@[b].name@);
        } else if b < a {
            assert(self.fixtures@[b].name@ != self.fixtures@[a].name@);
        }
    }

    /// Two dimmers over one fixture are one dimmer.
    pub proof fn lemma_same_dimmer(&self, a: int, b: int)
        requires
            self.wf(),
            0 <= a < self.dimmers@.len(),
            0 <= b < self.dimmers@.len(),
            self.dimmers@[a].fixture == self.dimmers@[b].fixture,
        ensures
            a == b,
    {
        if a < b {
            assert(self.dimmers@[a].fixture != self.dimmers@[b].fixture);
        } else if b < a {
            assert(self.dimmers@[b].fixture != self.dimmers@[a].fixture);
        }
    }

    /// The levels of all channels, fixture by fixture.
    pub open spec fn levels(&self) -> Seq<Seq<u8>> {
        self.fixtures@.map_values(|f: Fixture| f.values@)
    }

    /// Everything but the channel levels and the driver.
    pub open spec fn same_setup(&self, other: &Universe) -> bool {
        &&& self.fixtures@.len() == other.fixtures@.len()
        &&& forall|i: int|
            0 <= i < self.fixtures@.len() ==> (#[trigger] self.fixtures@[i]).name
                == other.fixtures@[i].name && self.fixtures@[i].first_channel
                == other.fixtures@[i].first_channel && self.fixtures@[i].values@.len()
                == other.fixtures@[i].values@.len()
        &&& self.dimmers@ == other.dimmers@
        &&& self.colors@ == other.colors@
    }

    /// The level that dimmer `d` currently shows.
    pub open spec fn current_level(&self, d: Dimmer) -> u8 {
        level_in(self.levels(), d.fixture as int, d.channel as int)
    }

    /// An empty universe with no driver.
    pub fn new() -> (r: Universe)
        ensures
            r.wf(),
            r.fixtures@.len() == 0,
            r.dimmers@.len() == 0,
            r.colors@.len() == 0,
            r.driver is None,
    {
        Universe { fixtures: Vec::new(), colors: Vec::new(), dimmers: Vec::new(), driver: None }
    }

    /// Index of the fixture called `name`.
    pub fn find_fixture(&self, name: &String) -> (r: Option<usize>)
        ensures
            r matches Some(i) ==> i < self.fixtures@.len() && self.fixtures@[i as int].name@
                == name@,
            r is None ==> forall|i: int|
                0 <= i < self.fixtures@.len() ==> #[trigger] self.fixtures@[i].name@ != name@,
    {
        let mut i: usize = 0;
        while i < self.fixtures.len()
            invariant
                i <= self.fixtures@.len(),
                forall|j: int| 0 <= j < i ==> #[trigger] self.fixtures@[j].name@ != name@,
            decreases self.fixtures@.len() - i,
        {
            if self.fixtures[i].name == *name {
                return Some(i);
            }
            i = i + 1;
        }
        None
    }

    /// Index of the dimmer over fixture `fixture`.
    pub fn find_dimmer(&self, fixture: usize) -> (r: Option<usize>)
        ensures
            r matches Some(i) ==> i < self.dimmers@.len() && self.dimmers@[i as int].fixture
                == fixture,
            r is None ==> forall|i: int|
                0 <= i < self.dimmers@.len() ==> #[trigger] self.dimmers@[i].fixture != fixture,
    {
        let mut i: usize = 0;
        while i < self.dimmers.len()
            invariant
                i <= self.dimmers@.len(),
                forall|j: int| 0 <= j < i ==> #[trigger] self.dimmers@[j].fixture != fixture,
            decreases self.dimmers@.len() - i,
        {
            if self.dimmers[i].fixture == fixture {
                return Some(i);
            }
            i = i + 1;
        }
        None
    }

    /// Index of the colour light over fixture `fixture`.
    pub fn find_color(&self, fixture: usize) -> (r: Option<usize>)
        ensures
            r matches Some(i) ==> i < self.colors@.len() && self.colors@[i as int].fixture
                == fixture,
            r is None ==> forall|i: int|
                0 <= i < self.colors@.len() ==> #[trigger] self.colors@[i].fixture != fixture,
    {
        let mut i: usize = 0;
        while i < self.colors.len()
            invariant
                i <= self.colors@.len(),
                forall|j: int| 0 <= j < i ==> #[trigger] self.colors@[j].fixture != fixture,
            decreases self.colors@.len() - i,
        {
            if self.colors[i].fixture == fixture {
                return Some(i);
            }
            i = i + 1;
        }
        None
    }

    /// The level of channel `channel` of fixture `fixture`, or dark where
    /// there is no such channel.
    pub fn level_of(&self, fixture: usize, channel: u16) -> (r: u8)
        ensures
            r == level_in(self.levels(), fixture as int, channel as int),
    {
        if fixture < self.fixtures.len() && (channel as usize) < self.fixtures[fixture].values.len() {
            self.fixtures[fixture].values[channel as usize]
        } else {
            0
        }
    }

    /// Writes level `v` to channel `channel` of fixture `fixture`, when
    /// there is such a channel.
    fn write_level(&mut self, fixture: usize, channel: u16, v: u8)
        requires
            old(self).wf(),
        ensures
            final(self).wf(),
            final(self).same_setup(old(self)),
            final(self).driver == old(self).driver,
            final(self).levels() == set_level(old(self).levels(), fixture as int, channel as int, v),
    {
        if fixture < self.fixtures.len() && (channel as usize) < self.fixtures[fixture].values.len() {
            let ghost before = self.levels();
            self.fixtures[fixture].values.set(channel as usize, v);
            assert(self.levels() =~= set_level(before, fixture as int, channel as int, v));
        }
    }

    /// Asks the driver, when one runs, to send a frame now.
    fn trigger(&mut self)
        requires
            old(self).wf(),
        ensures
            final(self).wf(),
            final(self).fixtures@ == old(self).fixtures@,
            final(self).dimmers@ == old(self).dimmers@,
            final(self).colors@ == old(self).colors@,
            final(self).driver == pushed(old(self).driver),
    {
        if let Some(mut d) = self.driver.take() {
            d.push_requests = if d.push_requests == u64::MAX {
                0
            } else {
                d.push_requests + 1
            };
            d.pending = true;
            self.driver = Some(d);
        }
    }

    /// One pass of transition `t`: every fade with steps left takes one and
    /// writes its level; when one did, the driver is asked for a frame and
    /// the sleep before the next pass is returned. A stopped transition, or
    /// one without a running driver, writes nothing and returns `None`.
    pub fn advance(&mut self, t: &mut Transition) -> (r: Option<u64>)
        requires
            old(self).wf(),
            old(t).wf(),
        ensures
            final(self).wf(),
            final(t).wf(),
            final(self).same_setup(old(self)),
            old(t).stopped || old(self).driver is None ==> r is None && *final(self) == *old(self)
                && *final(t) == *old(t),
            !old(t).stopped && old(self).driver is Some ==> final(t).fades@ == old(
                t,
            ).fades@.map_values(|d: Dimmer| d.stepped()),
            !old(t).stopped && old(self).driver is Some ==> final(self).levels() == pass_levels(
                old(self).levels(),
                old(t).fades@,
            ),
            !old(t).stopped && old(self).driver is Some ==> r == if old(t).pending() {
                Some(old(t).interval_ms)
            } else {
                None::<u64>
            },
            !old(t).stopped && old(self).driver is Some ==> final(self).driver == if old(
                t,
            ).pending() {
                pushed(old(self).driver)
            } else {
                old(self).driver
            },
            final(t).stopped == old(t).stopped,
            final(t).interval_ms == old(t).interval_ms,
    {
        if t.stopped || self.driver.is_none() {
            return None;
        }
        let ghost u0 = *self;
        let ghost fades0 = t.fades@;
        let ghost interval0 = t.interval_ms;
        let mut any = false;
        let mut i: usize = 0;
        while i < t.fades.len()
            invariant
                self.wf(),
                t.wf(),
                self.same_setup(&u0),
                self.driver == u0.driver,
                u0.driver is Some,
                t.fades@.len() == fades0.len(),
                t.stopped == false,
                t.interval_ms == interval0,
                i <= fades0.len(),
                forall|j: int| 0 <= j < i ==> #[trigger] t.fades@[j] == fades0[j].stepped(),
                forall|j: int| i <= j < fades0.len() ==> #[trigger] t.fades@[j] == fades0[j],
                self.levels() == pass_levels(u0.levels(), fades0.take(i as int)),
                any == exists|j: int| 0 <= j < i && #[trigger] fades0[j].fading(),
            decreases fades0.len() - i,
        {
            let mut d = t.fades[i];
            let step = d.fade_step();
            t.fades.set(i, d);
            if let Some(v) = step {
                self.write_level(d.fixture, d.channel, v);
                any = true;
            }
            proof {
                assert(fades0.take(i + 1).drop_last() =~= fades0.take(i as int));
            }
            i = i + 1;
        }
        proof {
            assert(fades0.take(i as int) =~= fades0);
            assert(t.fades@ =~= fades0.map_values(|d: Dimmer| d.stepped()));
        }
        if any {
            self.trigger();
            Some(t.interval_ms)
        } else {
            None
        }
    }

    /// The sleep between two steps of dimmer `d` fading from its current
    /// level over `duration_ms` milliseconds.
    pub open spec fn fade_interval(&self, d: Dimmer, duration_ms: nat) -> nat {
        step_interval(distance(self.current_level(d), d.target), duration_ms)
    }

    /// Blackout: every registered dimmer's channel goes dark at once, then
    /// the driver, when one runs, is asked for exactly one frame.
    pub fn go_bo(&mut self)
        requires
            old(self).wf(),
        ensures
            final(self).wf(),
            final(self).same_setup(old(self)),
            final(self).levels() == dark_levels(old(self).levels(), old(self).dimmers@),
            final(self).driver == pushed(old(self).driver),
    {
        let ghost u0 = *self;
        let mut i: usize = 0;
        while i < self.dimmers.len()
            invariant
                self.wf(),
                self.same_setup(&u0),
                self.driver == u0.driver,
                i <= self.dimmers@.len(),
                self.levels() == dark_levels(u0.levels(), u0.dimmers@.take(i as int)),
            decreases self.dimmers@.len() - i,
        {
            let d = self.dimmers[i];
            self.write_level(d.fixture, d.channel, 0);
            proof {
                assert(u0.dimmers@.take(i + 1).drop_last() =~= u0.dimmers@.take(i as int));
            }
            i = i + 1;
        }
        proof {
            assert(u0.dimmers@.take(i as int) =~= u0.dimmers@);
        }
        self.trigger();
    }

    /// Starts a fade of the dimmer of the fixture called `name` from its
    /// current level to its target over `duration_ms` milliseconds. There is
    /// none without a running driver or without such a dimmer.
    pub fn fade_in_one(&mut self, name: String, duration_ms: u64) -> (r: Option<Transition>)
        requires
            old(self).wf(),
        ensures
            *final(self) == *old(self),
            r is Some <==> old(self).driver is Some && exists|i: int|
                0 <= i < old(self).dimmers@.len() && #[trigger] old(self).fixtures@[old(
                    self,
                ).dimmers@[i].fixture as int].name@ == name@,
            forall|i: int|
                0 <= i < old(self).dimmers@.len() && #[trigger] old(self).fixtures@[old(
                    self,
                ).dimmers@[i].fixture as int].name@ == name@ ==> (r matches Some(t) ==> {
                    let d = old(self).dimmers@[i];
                    &&& t.fades@ == seq![prepared(d, old(self).current_level(d), duration_ms as nat)]
                    &&& t.interval_ms == old(self).fade_interval(d, duration_ms as nat)
                    &&& !t.stopped
                }),
            r matches Some(t) ==> t.wf(),
    {
        if self.driver.is_none() {
            return None;
        }
        match self.find_fixture(&name) {
            None => {
                assert forall|i: int| 0 <= i < self.dimmers@.len() implies #[trigger] self.fixtures@[self.dimmers@[i].fixture as int].name@ != name@ by {
                    assert(self.dimmers@[i].fixture < self.fixtures@.len());
                }
                None
            },
            Some(fi) => match self.find_dimmer(fi) {
                None => {
                    assert forall|i: int| 0 <= i < self.dimmers@.len() implies #[trigger] self.fixtures@[self.dimmers@[i].fixture as int].name@ != name@ by {
                        assert(self.dimmers@[i].fixture != fi);
                        assert(self.dimmers@[i].fixture < self.fixtures@.len());
                        if self.fixtures@[self.dimmers@[i].fixture as int].name@ == name@ {
                            self.lemma_same_name(self.dimmers@[i].fixture as int, fi as int);
                        }
                    }
                    None
                },
                Some(di) => {
                    let mut d = self.dimmers[di];
                    let current = self.level_of(d.fixture, d.channel);
                    let interval = d.fade_in(current, duration_ms);
                    let fades = vec![d];
                    proof {
                        assert forall|i: int| 0 <= i < self.dimmers@.len() && #[trigger] self.fixtures@[self.dimmers@[i].fixture as int].name@ == name@ implies i == di by {
                            assert(self.dimmers@[i].fixture < self.fixtures@.len());
                            self.lemma_same_name(self.dimmers@[i].fixture as int, fi as int);
                            self.lemma_same_dimmer(i, di as int);
                        }
                        assert(fades@ =~= seq![prepared(self.dimmers@[di as int], current, duration_ms as nat)]);
                    }
                    Some(Transition { fades, interval_ms: interval, stopped: false })
                },
            },
        }
    }

    /// Starts one fade of every registered dimmer from its current level to
    /// its target over `duration_ms` milliseconds, sharing the shortest of
    /// their step intervals. There is none without a running driver or
    /// without dimmers.
    pub fn fade_in_all(&mut self, duration_ms: u64) -> (r: Option<Transition>)
        requires
            old(self).wf(),
        ensures
            *final(self) == *old(self),
            r is Some <==> old(self).driver is Some && old(self).dimmers@.len() > 0,
            r matches Some(t) ==> t.wf() && !t.stopped && t.fades@.len() == old(self).dimmers@.len(),
            r matches Some(t) ==> forall|i: int|
                0 <= i < t.fades@.len() ==> #[trigger] t.fades@[i] == prepared(
                    old(self).dimmers@[i],
                    old(self).current_level(old(self).dimmers@[i]),
                    duration_ms as nat,
                ),
            r matches Some(t) ==> forall|i: int|
                0 <= i < old(self).dimmers@.len() ==> t.interval_ms <= #[trigger] old(
                    self,
                ).fade_interval(old(self).dimmers@[i], duration_ms as nat),
            r matches Some(t) ==> exists|i: int|
                0 <= i < old(self).dimmers@.len() && t.interval_ms == #[trigger] old(
                    self,
                ).fade_interval(old(self).dimmers@[i], duration_ms as nat),
    {
        if self.driver.is_none() || self.dimmers.len() == 0 {
            return None;
        }
        let mut fades: Vec<Dimmer> = Vec::new();
        let mut shortest: u64 = 0;
        let mut i: usize = 0;
        while i < self.dimmers.len()
            invariant
                self.wf(),
                0 < self.dimmers@.len(),
                i <= self.dimmers@.len(),
                fades@.len() == i,
                forall|j: int| 0 <= j < i ==> #[trigger] fades@[j] == prepared(
                    self.dimmers@[j],
                    self.current_level(self.dimmers@[j]),
                    duration_ms as nat,
                ),
                forall|j: int| 0 <= j < i ==> #[trigger] fades@[j].wf(),
                forall|j: int|
                    0 <= j < i ==> shortest <= #[trigger] self.fade_interval(
                        self.dimmers@[j],
                        duration_ms as nat,
                    ),
                i > 0 ==> exists|j: int|
                    0 <= j < i && shortest == #[trigger] self.fade_interval(
                        self.dimmers@[j],
                        duration_ms as nat,
                    ),
            decreases self.dimmers@.len() - i,
        {
            let mut d = self.dimmers[i];
            let current = self.level_of(d.fixture, d.channel);
            let interval = d.fade_in(current, duration_ms);
            assert(interval == self.fade_interval(self.dimmers@[i as int], duration_ms as nat));
            if i == 0 || interval < shortest {
                shortest = interval;
            }
            fades.push(d);
            i = i + 1;
        }
        Some(Transition { fades, interval_ms: shortest, stopped: false })
    }

    /// Starts the output driver over the fixtures registered so far, with
    /// a first frame due at once. A driver that ran before is replaced.
    pub fn start(&mut self, settings: TransportSettings)
        requires
            old(self).wf(),
        ensures
            final(self).wf(),
            final(self).fixtures@ == old(self).fixtures@,
            final(self).dimmers@ == old(self).dimmers@,
            final(self).colors@ == old(self).colors@,
            final(self).driver == Some(
                (OutputDriver {
                    settings,
                    fixture_count: old(self).fixtures@.len() as usize,
                    push_requests: 0,
                    pending: true,
                    transport_errors: 0,
                }),
            ),
    {
        let count = self.fixtures.len();
        self.driver = Some(
            OutputDriver {
                settings,
                fixture_count: count,
                push_requests: 0,
                pending: true,
                transport_errors: 0,
            },
        );
    }

    /// Stops the output driver; returns whether one was running. Without a
    /// running driver nothing changes.
    pub fn stop(&mut self) -> (was_running: bool)
        requires
            old(self).wf(),
        ensures
            final(self).wf(),
            final(self).fixtures@ == old(self).fixtures@,
            final(self).dimmers@ == old(self).dimmers@,
            final(self).colors@ == old(self).colors@,
            final(self).driver is None,
            was_running == old(self).driver is Some,
            old(self).driver is None ==> *final(self) == *old(self),
    {
        let was_running = self.driver.is_some();
        self.driver = None;
        was_running
    }

    /// Whether the running driver has been asked for a frame that it has not
    /// taken yet.
    pub fn push_pending(&self) -> (r: bool)
        ensures
            r == (self.driver matches Some(d) && d.pending),
    {
        match &self.driver {
            Some(d) => d.pending,
            None => false,
        }
    }

    /// The frame that the running driver must send now, made of the
    /// fixtures it was started with; taking it clears the pending request.
    /// `None` when no driver runs.
    pub fn take_frame(&mut self) -> (r: Option<Vec<u8>>)
        requires
            old(self).wf(),
        ensures
            final(self).wf(),
            final(self).fixtures@ == old(self).fixtures@,
            final(self).dimmers@ == old(self).dimmers@,
            final(self).colors@ == old(self).colors@,
            old(self).driver is None ==> r is None && final(self).driver is None,
            old(self).driver matches Some(d) ==> r matches Some(f) && is_frame_of(
                f@,
                old(self).fixtures@.take(d.fixture_count as int),
            ),
            old(self).driver matches Some(d) ==> final(self).driver == Some(
                (OutputDriver { pending: false, ..d }),
            ),
    {
        match self.driver.take() {
            None => None,
            Some(mut d) => {
                let out = frame(&self.fixtures, d.fixture_count);
                d.pending = false;
                self.driver = Some(d);
                Some(out)
            },
        }
    }

    /// Records a failed send on the transport; the driver keeps running.
    pub fn note_transport_error(&mut self)
        requires
            old(self).wf(),
        ensures
            final(self).wf(),
            final(self).fixtures@ == old(self).fixtures@,
            final(self).dimmers@ == old(self).dimmers@,
            final(self).colors@ == old(self).colors@,
            old(self).driver is None ==> final(self).driver is None,
            old(self).driver matches Some(d) ==> final(self).driver == Some(
                (OutputDriver {
                    transport_errors: if d.transport_errors == u64::MAX {
                        d.transport_errors
                    } else {
                        (d.transport_errors + 1) as u64
                    },
                    ..d
                }),
            ),
    {
        if let Some(mut d) = self.driver.take() {
            if d.transport_errors < u64::MAX {
                d.transport_errors = d.transport_errors + 1;
            }
            self.driver = Some(d);
        }
    }

    /// Registers a fixture of `count` dark channels from `first_channel` on
    /// under `name`, in place of the fixture that had that name, if any;
    /// returns its index.
    pub fn add_light(&mut self, name: String, first_channel: u16, count: u16) -> (r: usize)
        requires
            old(self).wf(),
        ensures
            final(self).wf(),
            final(self).dimmers@ == old(self).dimmers@,
            final(self).colors@ == old(self).colors@,
            final(self).driver == old(self).driver,
            r < final(self).fixtures@.len(),
            final(self).fixtures@[r as int].name@ == name@,
            final(self).fixtures@[r as int].first_channel == first_channel,
            final(self).fixtures@[r as int].values@ == Seq::new(count as nat, |k: int| 0u8),
            r < old(self).fixtures@.len() ==> old(self).fixtures@[r as int].name@ == name@
                && final(self).fixtures@.len() == old(self).fixtures@.len(),
            r == old(self).fixtures@.len() ==> final(self).fixtures@.len() == old(
                self,
            ).fixtures@.len() + 1 && forall|i: int|
                0 <= i < old(self).fixtures@.len() ==> #[trigger] old(self).fixtures@[i].name@
                    != name@,
            r <= old(self).fixtures@.len(),
            forall|i: int|
                0 <= i < old(self).fixtures@.len() && i != r ==> #[trigger] final(self).fixtures@[i]
                    == old(self).fixtures@[i],
    {
        let found = self.find_fixture(&name);
        let light = Fixture::new(name, first_channel, count);
        match found {
            Some(i) => {
                self.fixtures.set(i, light);
                proof {
                    assert forall|a: int, b: int|
                        0 <= a < b < self.fixtures@.len() implies #[trigger] self.fixtures@[a].name@
                        != #[trigger] self.fixtures@[b].name@ by {
                        if a != i && b != i {
                            assert(old(self).fixtures@[a].name@ != old(self).fixtures@[b].name@);
                        } else if a == i {
                            if old(self).fixtures@[b].name@ == name@ {
                                old(self).lemma_same_name(i as int, b);
                            }
                        } else {
                            if old(self).fixtures@[a].name@ == name@ {
                                old(self).lemma_same_name(a, i as int);
                            }
                        }
                    }
                }
                i
            },
            None => {
                let r = self.fixtures.len();
                self.fixtures.push(light);
                proof {
                    assert forall|a: int, b: int|
                        0 <= a < b < self.fixtures@.len() implies #[trigger] self.fixtures@[a].name@
                        != #[trigger] self.fixtures@[b].name@ by {
                        if b < r {
                            assert(old(self).fixtures@[a].name@ != old(self).fixtures@[b].name@);
                        }
                    }
                    assert forall|j: int| 0 <= j < self.dimmers@.len() implies (#[trigger] self.dimmers@[j]).fixture < self.fixtures@.len() by {
                        assert(old(self).dimmers@[j].fixture < old(self).fixtures@.len());
                    }
                    assert forall|j: int| 0 <= j < self.colors@.len() implies (#[trigger] self.colors@[j]).fixture < self.fixtures@.len() by {
                        assert(old(self).colors@[j].fixture < old(self).fixtures@.len());
                    }
                }
                r
            },
        }
    }

    /// Registers a dimmer over channel `channel` of the fixture called
    /// `name`, in place of the dimmer that fixture had, if any. Fails, with
    /// nothing changed, when no fixture has that name.
    pub fn add_dimmer(&mut self, name: String, channel: u16) -> (r: Result<(), UniverseError>)
        requires
            old(self).wf(),
        ensures
            final(self).wf(),
            r is Err <==> forall|i: int|
                0 <= i < old(self).fixtures@.len() ==> #[trigger] old(self).fixtures@[i].name@
                    != name@,
            r is Err ==> r == Err::<(), UniverseError>(UniverseError::NoSuchFixture) && *final(self)
                == *old(self),
            final(self).fixtures@ == old(self).fixtures@,
            final(self).colors@ == old(self).colors@,
            final(self).driver == old(self).driver,
            r is Ok ==> exists|i: int|
                0 <= i < old(self).fixtures@.len() && #[trigger] old(self).fixtures@[i].name@
                    == name@ && registered(
                    old(self).dimmers@,
                    final(self).dimmers@,
                    idle_dimmer(i as usize, channel),
                    |d: Dimmer| d.fixture,
                ),
    {
        match self.find_fixture(&name) {
            None => Err(UniverseError::NoSuchFixture),
            Some(fi) => {
                let d = Dimmer::new(fi, channel);
                match self.find_dimmer(fi) {
                    Some(di) => {
                        self.dimmers.set(di, d);
                        proof {
                            assert forall|a: int, b: int|
                                0 <= a < b < self.dimmers@.len() implies #[trigger] self.dimmers@[a].fixture
                                != #[trigger] self.dimmers@[b].fixture by {
                                if a != di && b != di {
                                    assert(old(self).dimmers@[a].fixture != old(self).dimmers@[b].fixture);
                                } else if a == di {
                                    assert(old(self).dimmers@[b].fixture != old(self).dimmers@[a].fixture || a == b) by {
                                        if old(self).dimmers@[b].fixture == old(self).dimmers@[a].fixture {
                                            old(self).lemma_same_dimmer(a, b);
                                        }
                                    }
                                } else {
                                    if old(self).dimmers@[a].fixture == old(self).dimmers@[b].fixture {
                                        old(self).lemma_same_dimmer(a, b);
                                    }
                                }
                            }
                            assert(registered(old(self).dimmers@, self.dimmers@, d, |d: Dimmer| d.fixture));
                        }
                    },
                    None => {
                        self.dimmers.push(d);
                        proof {
                            assert(self.dimmers@ == old(self).dimmers@.push(d));
                            assert forall|a: int, b: int|
                                0 <= a < b < self.dimmers@.len() implies #[trigger] self.dimmers@[a].fixture
                                != #[trigger] self.dimmers@[b].fixture by {
                                if b < old(self).dimmers@.len() {
                                    assert(old(self).dimmers@[a].fixture != old(self).dimmers@[b].fixture);
                                }
                            }
                            assert(registered(old(self).dimmers@, self.dimmers@, d, |d: Dimmer| d.fixture));
                        }
                    },
                }
                Ok(())
            },
        }
    }

    /// Registers `light` in place of the colour light its fixture had, if
    /// any.
    fn put_color(&mut self, light: ColorLight)
        requires
            old(self).wf(),
            light.fixture < old(self).fixtures@.len(),
        ensures
            final(self).wf(),
            final(self).fixtures@ == old(self).fixtures@,
            final(self).dimmers@ == old(self).dimmers@,
            final(self).driver == old(self).driver,
            registered(old(self).colors@, final(self).colors@, light, |c: ColorLight| c.fixture),
    {
        match self.find_color(light.fixture) {
            Some(ci) => {
                self.colors.set(ci, light);
                proof {
                    assert forall|a: int, b: int|
                        0 <= a < b < self.colors@.len() implies #[trigger] self.colors@[a].fixture
                        != #[trigger] self.colors@[b].fixture by {
                        if a != ci && b != ci {
                            assert(old(self).colors@[a].fixture != old(self).colors@[b].fixture);
                        } else if a == ci {
                            if old(self).colors@[b].fixture == old(self).colors@[a].fixture {
                                assert(old(self).colors@[a].fixture != old(self).colors@[b].fixture);
                            }
                        } else {
                            assert(old(self).colors@[a].fixture != old(self).colors@[b].fixture);
                        }
                    }
                    assert(registered(old(self).colors@, self.colors@, light, |c: ColorLight| c.fixture));
                }
            },
            None => {
                self.colors.push(light);
                proof {
                    assert forall|a: int, b: int|
                        0 <= a < b < self.colors@.len() implies #[trigger] self.colors@[a].fixture
                        != #[trigger] self.colors@[b].fixture by {
                        if b < old(self).colors@.len() {
                            assert(old(self).colors@[a].fixture != old(self).colors@[b].fixture);
                        }
                    }
                    assert(registered(old(self).colors@, self.colors@, light, |c: ColorLight| c.fixture));
                }
            },
        }
    }

    /// Registers a red, green and blue light over the given channels of the
    /// fixture called `name`, in place of the colour light that fixture
    /// had, if any. Fails, with nothing changed, when no fixture has that
    /// name.
    pub fn add_rgb(&mut self, name: String, red: u16, green: u16, blue: u16) -> (r: Result<(), UniverseError>)
        requires
            old(self).wf(),
        ensures
            final(self).wf(),
            r is Err <==> forall|i: int|
                0 <= i < old(self).fixtures@.len() ==> #[trigger] old(self).fixtures@[i].name@
                    != name@,
            r is Err ==> r == Err::<(), UniverseError>(UniverseError::NoSuchFixture) && *final(self)
                == *old(self),
            final(self).fixtures@ == old(self).fixtures@,
            final(self).dimmers@ == old(self).dimmers@,
            final(self).driver == old(self).driver,
            r is Ok ==> exists|i: int|
                0 <= i < old(self).fixtures@.len() && #[trigger] old(self).fixtures@[i].name@
                    == name@ && registered(
                    old(self).colors@,
                    final(self).colors@,
                    (ColorLight { fixture: i as usize, red, green, blue, white: None }),
                    |c: ColorLight| c.fixture,
                ),
    {
        match self.find_fixture(&name) {
            None => Err(UniverseError::NoSuchFixture),
            Some(fi) => {
                self.put_color(ColorLight::rgb(fi, red, green, blue));
                Ok(())
            },
        }
    }

    /// Registers a red, green, blue and white light over the given channels
    /// of the fixture called `name`, in place of the colour light that
    /// fixture had, if any. Fails, with nothing changed, when no fixture
    /// has that name.
    pub fn add_rgbw(&mut self, name: String, red: u16, green: u16, blue: u16, white: u16) -> (r:
        Result<(), UniverseError>)
        requires
            old(self).wf(),
        ensures
            final(self).wf(),
            r is Err <==> forall|i: int|
                0 <= i < old(self).fixtures@.len() ==> #[trigger] old(self).fixtures@[i].name@
                    != name@,
            r is Err ==> r == Err::<(), UniverseError>(UniverseError::NoSuchFixture) && *final(self)
                == *old(self),
            final(self).fixtures@ == old(self).fixtures@,
            final(self).dimmers@ == old(self).dimmers@,
            final(self).driver == old(self).driver,
            r is Ok ==> exists|i: int|
                0 <= i < old(self).fixtures@.len() && #[trigger] old(self).fixtures@[i].name@
                    == name@ && registered(
                    old(self).colors@,
                    final(self).colors@,
                    (ColorLight { fixture: i as usize, red, green, blue, white: Some(white) }),
                    |c: ColorLight| c.fixture,
                ),
    {
        match self.find_fixture(&name) {
            None => Err(UniverseError::NoSuchFixture),
            Some(fi) => {
                self.put_color(ColorLight::rgbw(fi, red, green, blue, white));
                Ok(())
            },
        }
    }
}

/// When a pass over a transition finds no fade with steps left, every fade
/// has taken all of its steps, and each one that had steps last wrote its
/// target.
pub proof fn lemma_finished_on_target(t: Transition)
    requires
        t.wf(),
        !t.pending(),
    ensures
        forall|i: int|
            0 <= i < t.fades@.len() ==> (#[trigger] t.fades@[i]).taken == t.fades@[i].steps,
        forall|i: int|
            0 <= i < t.fades@.len() && (#[trigger] t.fades@[i]).steps > 0 ==> level_at(
                t.fades@[i].start,
                t.fades@[i].target,
                t.fades@[i].steps as nat,
                t.fades@[i].taken as nat,
            ) == t.fades@[i].target,
{
    assert forall|i: int| 0 <= i < t.fades@.len() && (#[trigger] t.fades@[i]).steps > 0 implies level_at(
        t.fades@[i].start,
        t.fades@[i].target,
        t.fades@[i].steps as nat,
        t.fades@[i].taken as nat,
    ) == t.fades@[i].target by {
        assert(t.fades@[i].wf());
        assert(!t.fades@[i].fading());
        lemma_level_final(t.fades@[i].start, t.fades@[i].target, t.fades@[i].steps as nat);
    }
    assert forall|i: int| 0 <= i < t.fades@.len() implies (#[trigger] t.fades@[i]).taken
        == t.fades@[i].steps by {
        assert(t.fades@[i].wf());
        assert(!t.fades@[i].fading());
    }
}

/// After a blackout, the channel of every dimmer it covered is dark.
pub proof fn lemma_blackout_darkens(ls: Seq<Seq<u8>>, ds: Seq<Dimmer>)
    ensures
        forall|i: int|
            0 <= i < ds.len() ==> level_in(dark_levels(ls, ds), (#[trigger] ds[i]).fixture as int, ds[i].channel as int) == 0,
        dark_levels(ls, ds).len() == ls.len(),
        forall|f: int| 0 <= f < ls.len() ==> (#[trigger] dark_levels(ls, ds)[f]).len() == ls[f].len(),
    decreases ds.len(),
{
    if ds.len() > 0 {
        let prev = ds.drop_last();
        lemma_blackout_darkens(ls, prev);
        let last = ds.last();
        assert forall|i: int|
            0 <= i < ds.len() implies level_in(dark_levels(ls, ds), (#[trigger] ds[i]).fixture as int, ds[i].channel as int) == 0 by {
            if i < ds.len() - 1 {
                assert(ds[i] == prev[i]);
            }
        }
    }
}

} // verus!
