//! The application controller: it owns the single session, the menu and the
//! stop flag, routes input and command events, and runs the session
//! commands. Work that only the engine can do is handed back as effects, in
//! the order in which it must be performed.

use vstd::prelude::*;
use crate::scheduler::{FrameLimiter, GameTime, Scheduler};
use crate::visitor::{
    balanced, decode, names_view, region_span, open_path, lemma_open_path_append, decode_spec, encode, encode_all, find_region, lemma_decode_ok, opens_at,
    records_view, records_wf, LoadError, LoadErrorV, Record, RecordV,
};

verus! {

/// Keys the router reacts to.
#[derive(Clone, Copy, Debug, PartialEq, Eq, Structural)]
pub enum Key {
    Escape,
    Other(u32),
}

/// What an input event from the window is.
#[derive(Clone, Copy, Debug, PartialEq, Eq, Structural)]
pub enum InputKind {
    CloseRequested,
    KeyPressed(Key),
    KeyReleased(Key),
    Other,
}

/// An input event with its one-way consumption marker.
#[derive(Clone, Copy, Debug, PartialEq, Eq, Structural)]
pub struct RoutedEvent {
    pub kind: InputKind,
    pub handled: bool,
}

/// The menu control an application command comes from.
#[derive(Clone, Copy, Debug, PartialEq, Eq, Structural)]
pub enum CommandSource {
    NewGame,
    SaveGame,
    LoadGame,
    QuitGame,
    Other(u64),
}

#[derive(Clone, Copy, Debug, PartialEq, Eq, Structural)]
pub enum CommandKind {
    Click,
    Other,
}

/// An application-level command event.
#[derive(Clone, Copy, Debug, PartialEq, Eq, Structural)]
pub struct CommandEvent {
    pub source: CommandSource,
    pub kind: CommandKind,
    pub handled: bool,
}

/// Work for the engine side, performed in the order given.
#[derive(Clone, Copy, Debug, PartialEq, Eq, Structural)]
pub enum Effect {
    /// Tear the live session down.
    DestroySession,
    /// Build a fresh session.
    CreateSession,
    SetMenuVisible(bool),
    /// Hand the input event to the session's input handler.
    ForwardToSession,
    /// Write a save.
    Save,
    /// Read the save and call `load_game` with it.
    Load,
    Stop,
}

/// A save read back: its records and where the engine's and the level's
/// regions stand in them (the indices of their `Enter` and `Leave`).
#[derive(Debug)]
pub struct SavedState {
    pub records: Vec<Record>,
    pub engine: (usize, usize),
    pub level: (usize, usize),
}

/// Application state.
#[derive(Debug)]
pub struct Game {
    has_level: bool,
    menu_visible: bool,
    running: bool,
    scheduler: Scheduler,
    limiter: FrameLimiter,
}

/// Name of the engine's region: "Engine".
pub open spec fn engine_region() -> Seq<u8> {
    seq![69u8, 110u8, 103u8, 105u8, 110u8, 101u8]
}

/// Name of the level's region: "Level".
pub open spec fn level_region() -> Seq<u8> {
    seq![76u8, 101u8, 118u8, 101u8, 108u8]
}

fn engine_region_name() -> (r: Vec<u8>)
    ensures
        r@ == engine_region(),
{
    vec![69u8, 110u8, 103u8, 105u8, 110u8, 101u8]
}

fn level_region_name() -> (r: Vec<u8>)
    ensures
        r@ == level_region(),
{
    vec![76u8, 101u8, 118u8, 101u8, 108u8]
}

/// The tree a save holds: the engine's state, then the level's.
pub open spec fn save_tree(engine: Seq<RecordV>, level: Seq<RecordV>) -> Seq<RecordV> {
    seq![RecordV::Enter(engine_region())] + engine + seq![RecordV::Leave, RecordV::Enter(level_region())]
        + level + seq![RecordV::Leave]
}

pub open spec fn has_top_region(v: Seq<RecordV>, name: Seq<u8>) -> bool {
    exists|i: int| 0 <= i < v.len() && #[trigger] opens_at(v, i, 0, name)
}

pub open spec fn teardown(had_level: bool) -> Seq<Effect> {
    if had_level { seq![Effect::DestroySession] } else { seq![] }
}

/// Effects of starting a new session.
pub open spec fn new_game_effects(had_level: bool) -> Seq<Effect> {
    teardown(had_level) + seq![Effect::CreateSession, Effect::SetMenuVisible(false)]
}

/// Whether an input event flips the menu whatever else happens to it.
pub open spec fn toggles_menu(kind: InputKind) -> bool {
    kind == InputKind::KeyPressed(Key::Escape)
}

/// Effects of routing one input event.
pub open spec fn input_effects(forward: bool, kind: InputKind, menu_visible: bool) -> Seq<Effect> {
    (if forward { seq![Effect::ForwardToSession] } else { seq![] })
        + (if kind == InputKind::CloseRequested {
        seq![Effect::Stop]
    } else if toggles_menu(kind) {
        seq![Effect::SetMenuVisible(!menu_visible)]
    } else {
        seq![]
    })
}

/// One call of `start_new_game`, from `g0` to `g1` with effects `fx`.
pub closed spec fn new_game_step(g0: Game, g1: Game, fx: Seq<Effect>) -> bool {
    &&& g1.level_live()
    &&& !g1.menu_shown()
    &&& g1.run_flag() == g0.run_flag()
    &&& fx == new_game_effects(g0.level_live())
}

impl Game {
    pub closed spec fn wf(&self) -> bool {
        self.scheduler.wf()
    }

    pub closed spec fn level_live(&self) -> bool {
        self.has_level
    }

    pub closed spec fn menu_shown(&self) -> bool {
        self.menu_visible
    }

    pub closed spec fn run_flag(&self) -> bool {
        self.running
    }

    pub closed spec fn clock(&self) -> Scheduler {
        self.scheduler
    }

    pub closed spec fn frame_limiter(&self) -> FrameLimiter {
        self.limiter
    }

    /// Whether a session is live.
    pub fn has_level(&self) -> (r: bool)
        ensures
            r == self.level_live(),
    {
        self.has_level
    }

    /// Whether the stop signal is still down.
    pub fn is_running(&self) -> (r: bool)
        ensures
            r == self.run_flag(),
    {
        self.running
    }

    /// The simulated clock.
    pub fn time(&self) -> (r: GameTime)
        ensures
            r == self.clock().time,
    {
        self.scheduler.time
    }

    /// When the current frame's measure started.
    pub fn last_tick_time(&self) -> (r: u64)
        ensures
            r == self.frame_limiter().last_tick_time,
    {
        self.limiter.last_tick_time
    }

    /// The steps of this frame's catch-up, each to be routed and updated in
    /// order; see `Scheduler::plan_updates`.
    pub fn plan_updates(&mut self, wall: u64) -> (r: Vec<GameTime>)
        requires
            old(self).wf(),
        ensures
            final(self).wf(),
            final(self).level_live() == old(self).level_live(),
            final(self).menu_shown() == old(self).menu_shown(),
            final(self).run_flag() == old(self).run_flag(),
            final(self).frame_limiter() == old(self).frame_limiter(),
            final(self).clock().time.delta == old(self).clock().time.delta,
            wall < old(self).clock().time.elapsed ==> r.len() == 0 && final(self).clock() == old(self).clock(),
            wall >= old(self).clock().time.elapsed ==> {
                &&& r.len() == (wall - old(self).clock().time.elapsed) / (old(self).clock().time.delta as int)
                &&& final(self).clock().time.elapsed <= wall
                &&& wall < final(self).clock().time.elapsed + final(self).clock().time.delta
            },
            forall|i: int| 0 <= i < r.len() ==> r[i] == (GameTime {
                elapsed: (old(self).clock().time.elapsed + (i + 1) * old(self).clock().time.delta) as u64,
                delta: old(self).clock().time.delta,
            }),
    {
        self.scheduler.plan_updates(wall)
    }

    /// A game with no session, the menu shown, its clock at zero with step
    /// `delta`, and its frame measure starting at `now`.
    pub fn new(delta: u64, now: u64) -> (g: Game)
        requires
            delta > 0,
        ensures
            g.wf(),
            !g.level_live(),
            g.menu_shown(),
            g.run_flag(),
            g.clock().time == (GameTime { elapsed: 0, delta }),
            g.clock().steps == 0,
            g.frame_limiter().last_tick_time == now,
    {
        Game {
            has_level: false,
            menu_visible: true,
            running: true,
            scheduler: Scheduler::new(delta),
            limiter: FrameLimiter::new(now),
        }
    }

    pub fn set_menu_visible(&mut self, visible: bool)
        ensures
            final(self).menu_shown() == visible,
            final(self).level_live() == old(self).level_live(),
            final(self).run_flag() == old(self).run_flag(),
            final(self).clock() == old(self).clock(),
            final(self).frame_limiter() == old(self).frame_limiter(),
    {
        self.menu_visible = visible;
    }

    pub fn is_menu_visible(&self) -> (r: bool)
        ensures
            r == self.menu_shown(),
    {
        self.menu_visible
    }

    /// Tears the session down if there is one.
    pub fn destroy_level(&mut self) -> (fx: Vec<Effect>)
        ensures
            !final(self).level_live(),
            fx@ == teardown(old(self).level_live()),
            final(self).menu_shown() == old(self).menu_shown(),
            final(self).run_flag() == old(self).run_flag(),
            final(self).clock() == old(self).clock(),
            final(self).frame_limiter() == old(self).frame_limiter(),
    {
        let mut fx: Vec<Effect> = Vec::new();
        if self.has_level {
            fx.push(Effect::DestroySession);
            self.has_level = false;
        }
        proof {
            assert(fx@ =~= teardown(old(self).level_live()));
        }
        fx
    }

    /// Replaces any session by a fresh one, tearing the old one down first,
    /// and hides the menu.
    pub fn start_new_game(&mut self) -> (fx: Vec<Effect>)
        ensures
            new_game_step(*old(self), *final(self), fx@),
            final(self).clock() == old(self).clock(),
            final(self).frame_limiter() == old(self).frame_limiter(),
    {
        let mut fx = self.destroy_level();
        fx.push(Effect::CreateSession);
        self.has_level = true;
        fx.push(Effect::SetMenuVisible(false));
        self.menu_visible = false;
        proof {
            assert(fx@ =~= new_game_effects(old(self).level_live()));
        }
        fx
    }

    /// The time to hand to the session's update, when there is a session.
    pub fn update(&self, time: &GameTime) -> (r: Option<GameTime>)
        ensures
            r == (if self.level_live() { Some(*time) } else { None::<GameTime> }),
    {
        if self.has_level {
            Some(*time)
        } else {
            None
        }
    }

    /// Routes one input event after the UI layer has seen it
    /// (`ui_consumed` is its answer). A consumed event is marked handled and
    /// kept from the session; closing and the menu key act in any case.
    pub fn process_input_event(&mut self, event: &mut RoutedEvent, ui_consumed: bool) -> (fx: Vec<Effect>)
        ensures
            final(event).kind == old(event).kind,
            final(event).handled == (old(event).handled || ui_consumed),
            fx@ == input_effects(!final(event).handled && old(self).level_live(), old(event).kind, old(self).menu_shown()),
            final(event).handled ==> !fx@.contains(Effect::ForwardToSession),
            final(self).run_flag() == (old(self).run_flag() && old(event).kind != InputKind::CloseRequested),
            final(self).menu_shown() == (if toggles_menu(old(event).kind) {
                !old(self).menu_shown()
            } else {
                old(self).menu_shown()
            }),
            final(self).level_live() == old(self).level_live(),
            final(self).clock() == old(self).clock(),
            final(self).frame_limiter() == old(self).frame_limiter(),
    {
        if ui_consumed {
            event.handled = true;
        }
        let mut fx: Vec<Effect> = Vec::new();
        if !event.handled && self.has_level {
            fx.push(Effect::ForwardToSession);
        }
        match event.kind {
            InputKind::CloseRequested => {
                self.running = false;
                fx.push(Effect::Stop);
            },
            InputKind::KeyPressed(Key::Escape) => {
                self.menu_visible = !self.menu_visible;
                fx.push(Effect::SetMenuVisible(self.menu_visible));
            },
            _ => {},
        }
        proof {
            let forward = !event.handled && old(self).level_live();
            assert(fx@ =~= input_effects(forward, old(event).kind, old(self).menu_shown()));
            if event.handled {
                assert(forall|i: int| 0 <= i < fx@.len() ==> fx@[i] != Effect::ForwardToSession);
            }
        }
        fx
    }

    /// Handles a command event the menu left unhandled. A command that is
    /// recognised marks the event handled, so no later handler acts on it.
    pub fn process_ui_event(&mut self, event: &mut CommandEvent) -> (fx: Vec<Effect>)
        ensures
            final(event).source == old(event).source,
            final(event).kind == old(event).kind,
            final(self).clock() == old(self).clock(),
            final(self).frame_limiter() == old(self).frame_limiter(),
            old(event).handled || old(event).kind != CommandKind::Click ==> {
                &&& fx@.len() == 0
                &&& *final(event) == *old(event)
                &&& final(self).level_live() == old(self).level_live()
                &&& final(self).menu_shown() == old(self).menu_shown()
                &&& final(self).run_flag() == old(self).run_flag()
            },
            !old(event).handled && old(event).kind == CommandKind::Click ==> match old(event).source {
                CommandSource::NewGame => final(event).handled && new_game_step(*old(self), *final(self), fx@),
                CommandSource::SaveGame => final(event).handled && fx@ == seq![Effect::Save]
                    && final(self).level_live() == old(self).level_live()
                    && final(self).menu_shown() == old(self).menu_shown()
                    && final(self).run_flag() == old(self).run_flag(),
                CommandSource::LoadGame => final(event).handled && fx@ == seq![Effect::Load]
                    && final(self).level_live() == old(self).level_live()
                    && final(self).menu_shown() == old(self).menu_shown()
                    && final(self).run_flag() == old(self).run_flag(),
                CommandSource::QuitGame => final(event).handled
                    && fx@ == teardown(old(self).level_live()) + seq![Effect::Stop]
                    && !final(self).level_live()
                    && !final(self).run_flag()
                    && final(self).menu_shown() == old(self).menu_shown(),
                CommandSource::Other(_) => !final(event).handled && fx@.len() == 0
                    && final(self).level_live() == old(self).level_live()
                    && final(self).menu_shown() == old(self).menu_shown()
                    && final(self).run_flag() == old(self).run_flag(),
            },
    {
        if event.handled || event.kind != CommandKind::Click {
            return Vec::new();
        }
        match event.source {
            CommandSource::NewGame => {
                event.handled = true;
                self.start_new_game()
            },
            CommandSource::SaveGame => {
                event.handled = true;
                let fx = vec![Effect::Save];
                fx
            },
            CommandSource::LoadGame => {
                event.handled = true;
                let fx = vec![Effect::Load];
                fx
            },
            CommandSource::QuitGame => {
                event.handled = true;
                let mut fx = self.destroy_level();
                self.running = false;
                fx.push(Effect::Stop);
                fx
            },
            CommandSource::Other(_) => Vec::new(),
        }
    }

    /// Measures the frame that ends at `now` and returns how long to sleep
    /// to hold `fps` frames per second; the next frame is measured from the
    /// end of that sleep.
    pub fn limit_fps(&mut self, now: u64, fps: u64) -> (r: u64)
        requires
            fps > 0,
            now >= old(self).frame_limiter().last_tick_time,
            now + 1_000_000_000int / (fps as int) <= u64::MAX,
        ensures
            r == crate::scheduler::sleep_time_spec(
                (now - old(self).frame_limiter().last_tick_time) as int,
                1_000_000_000int / (fps as int),
            ),
            final(self).frame_limiter().last_tick_time == now + r,
            now - old(self).frame_limiter().last_tick_time < 1_000_000_000int / (fps as int)
                ==> final(self).frame_limiter().last_tick_time - old(self).frame_limiter().last_tick_time
                == 1_000_000_000int / (fps as int),
            final(self).level_live() == old(self).level_live(),
            final(self).menu_shown() == old(self).menu_shown(),
            final(self).run_flag() == old(self).run_flag(),
            final(self).clock() == old(self).clock(),
    {
        self.limiter.limit_fps(now, fps)
    }

    /// Builds the save of the engine's and the level's state, each in its
    /// own region, and encodes it whole. Nothing is written before the
    /// whole tree is built, and the game is left as it was.
    pub fn save_game(&self, engine: Vec<Record>, level: Vec<Record>) -> (b: Vec<u8>)
        ensures
            b@ == encode_all(save_tree(records_view(engine@), records_view(level@))),
    {
        let ghost ev = records_view(engine@);
        let ghost lv = records_view(level@);
        let mut tree: Vec<Record> = Vec::new();
        tree.push(Record::Enter(engine_region_name()));
        let mut engine = engine;
        let mut level = level;
        tree.append(&mut engine);
        tree.push(Record::Leave);
        tree.push(Record::Enter(level_region_name()));
        tree.append(&mut level);
        tree.push(Record::Leave);
        proof {
            assert(records_view(tree@) =~= save_tree(ev, lv));
        }
        encode(&tree)
    }

    /// Loads a save. Any session is torn down first, before the bytes are
    /// looked at; `data` is `None` where they could not be read. On success
    /// a session stands again and the menu is hidden; on any failure there
    /// is no session and the reason is returned.
    pub fn load_game(&mut self, data: Option<Vec<u8>>) -> (r: (Vec<Effect>, Result<SavedState, LoadError>))
        ensures
            final(self).level_live() == r.1 is Ok,
            final(self).run_flag() == old(self).run_flag(),
            final(self).clock() == old(self).clock(),
            final(self).frame_limiter() == old(self).frame_limiter(),
            r.1 is Ok ==> !final(self).menu_shown()
                && r.0@ == teardown(old(self).level_live()) + seq![Effect::CreateSession, Effect::SetMenuVisible(false)],
            r.1 is Err ==> final(self).menu_shown() == old(self).menu_shown()
                && r.0@ == teardown(old(self).level_live()),
            data is None ==> r.1 is Err && r.1->Err_0@ == LoadErrorV::Unreadable,
            data is Some ==> {
                let d = decode_spec(data->Some_0@);
                &&& d is Err ==> r.1 is Err && r.1->Err_0@ == d->Err_0
                &&& d is Ok && !has_top_region(d->Ok_0, engine_region())
                    ==> r.1 is Err && r.1->Err_0@ == LoadErrorV::Missing(seq![engine_region()])
                &&& d is Ok && has_top_region(d->Ok_0, engine_region()) && !has_top_region(d->Ok_0, level_region())
                    ==> r.1 is Err && r.1->Err_0@ == LoadErrorV::Missing(seq![level_region()])
                &&& d is Ok && has_top_region(d->Ok_0, engine_region()) && has_top_region(d->Ok_0, level_region())
                    ==> r.1 is Ok && records_view(r.1->Ok_0.records@) == d->Ok_0
            },
            r.1 is Ok ==> ({
                let s = r.1->Ok_0;
                let v = records_view(s.records@);
                &&& balanced(v)
                &&& region_span(v, s.engine.0 as int, s.engine.1 as int, engine_region())
                &&& region_span(v, s.level.0 as int, s.level.1 as int, level_region())
            }),
    {
        let fx = self.destroy_level();
        let bytes = match data {
            None => {
                return (fx, Err(LoadError::Unreadable));
            },
            Some(b) => b,
        };
        let records = match decode(&bytes) {
            Err(e) => {
                return (fx, Err(e));
            },
            Ok(rs) => rs,
        };
        proof {
            lemma_decode_ok(bytes@);
        }
        let engine_name = engine_region_name();
        let engine = match find_region(&records, &engine_name) {
            None => {
                proof {
                    assert(!has_top_region(records_view(records@), engine_region()));
                }
                let path = vec![engine_name];
                proof {
                    assert(names_view(path@) =~= seq![engine_region()]);
                }
                return (fx, Err(LoadError::Missing(path)));
            },
            Some(span) => span,
        };
        let level_name = level_region_name();
        let level = match find_region(&records, &level_name) {
            None => {
                proof {
                    assert(!has_top_region(records_view(records@), level_region()));
                }
                let path = vec![level_name];
                proof {
                    assert(names_view(path@) =~= seq![level_region()]);
                }
                return (fx, Err(LoadError::Missing(path)));
            },
            Some(span) => span,
        };
        let mut fx = fx;
        fx.push(Effect::CreateSession);
        self.has_level = true;
        fx.push(Effect::SetMenuVisible(false));
        self.menu_visible = false;
        (fx, Ok(SavedState { records, engine, level }))
    }
}

/// Starting a new session twice in a row leaves exactly one session, and
/// the second start tears the first session down before it builds its own.
pub proof fn lemma_new_game_twice(g0: Game, g1: Game, g2: Game, fx1: Seq<Effect>, fx2: Seq<Effect>)
    requires
        new_game_step(g0, g1, fx1),
        new_game_step(g1, g2, fx2),
    ensures
        g2.level_live(),
        fx2 == seq![Effect::DestroySession, Effect::CreateSession, Effect::SetMenuVisible(false)],
        fx2.filter(|e: Effect| e == Effect::CreateSession).len() == 1,
{
    assert(fx2 =~= seq![Effect::DestroySession, Effect::CreateSession, Effect::SetMenuVisible(false)]);
    reveal_with_fuel(Seq::filter, 4);
    assert(fx2.filter(|e: Effect| e == Effect::CreateSession) =~= seq![Effect::CreateSession]);
}

/// What `save_game` writes reads back as the same tree, and both of its
/// regions are found by name, so `load_game` succeeds on it.
pub proof fn lemma_save_then_load(engine: Seq<RecordV>, level: Seq<RecordV>)
    requires
        records_wf(engine),
        records_wf(level),
        balanced(engine),
        balanced(level),
    ensures
        balanced(save_tree(engine, level)),
        decode_spec(encode_all(save_tree(engine, level))) == Ok::<Seq<RecordV>, LoadErrorV>(save_tree(engine, level)),
        has_top_region(save_tree(engine, level), engine_region()),
        has_top_region(save_tree(engine, level), level_region()),
{
    let t = save_tree(engine, level);
    let open_e = seq![RecordV::Enter(engine_region())];
    let close_open_l = seq![RecordV::Leave, RecordV::Enter(level_region())];
    let close = seq![RecordV::Leave];
    let empty = Seq::<Seq<u8>>::empty();
    assert(open_e.drop_last() =~= Seq::<RecordV>::empty());
    assert(open_path(Seq::<RecordV>::empty()) == Some(empty));
    assert(open_e.last() == RecordV::Enter(engine_region()));
    assert(open_path(open_e) == Some(empty.push(engine_region())));
    lemma_open_path_append(open_e, engine);
    let a1 = open_e + engine;
    assert(empty.push(engine_region()) + empty =~= empty.push(engine_region()));
    let lv = seq![RecordV::Leave];
    assert(lv.drop_last() =~= Seq::<RecordV>::empty());
    assert(close_open_l.drop_last() =~= lv);
    assert(open_path(lv) is None);
    let a2 = a1 + lv;
    assert(a2.drop_last() =~= a1);
    assert(open_path(a2) == Some(empty)) by {
        assert(empty.push(engine_region()).drop_last() =~= empty);
    }
    let a3 = a1 + close_open_l;
    assert(a3.drop_last() =~= a2);
    assert(open_path(a3) == Some(empty.push(level_region())));
    lemma_open_path_append(a3, level);
    let a4 = a3 + level;
    assert(empty.push(level_region()) + empty =~= empty.push(level_region()));
    assert(t =~= a4 + close);
    assert((a4 + close).drop_last() =~= a4);
    assert(empty.push(level_region()).drop_last() =~= empty);
    assert(balanced(t));
    assert forall|i: int| 0 <= i < t.len() implies crate::visitor::record_wf(#[trigger] t[i]) by {
        if 1 <= i < 1 + engine.len() {
            assert(t[i] == engine[i - 1]);
        } else if 3 + engine.len() <= i < 3 + engine.len() + level.len() {
            assert(t[i] == level[i - 3 - engine.len()]);
        }
    }
    crate::visitor::lemma_round_trip(t);
    assert(t.take(0) =~= Seq::<RecordV>::empty());
    assert(opens_at(t, 0, 0, engine_region()));
    let j = 2 + engine.len() as int;
    assert(t.take(j) =~= a2);
    assert(opens_at(t, j, 0, level_region()));
}

} // verus!
